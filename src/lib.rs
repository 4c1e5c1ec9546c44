pub mod changes;
pub mod config;
pub mod deploy;
pub mod graph;
pub mod keys;
