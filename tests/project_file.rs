use clarinet::changes::{apply_toml_edition, TOMLEdition};
use clarinet::config::{
    ConfigError, ConfigValue, ContractConfig, LinkConfig, MainConfig, MainConfigFile, ProjectConfigFile,
};

fn text(s: &str) -> ConfigValue {
    ConfigValue::Text(s.to_string())
}

fn table(entries: Vec<(&str, ConfigValue)>) -> ConfigValue {
    ConfigValue::Table(entries.into_iter().map(|(k, v)| (k.to_string(), v)).collect())
}

fn contract_entry(path: &str, deps: &[&str]) -> ConfigValue {
    table(vec![
        ("path", text(path)),
        ("depends_on", ConfigValue::List(deps.iter().map(|d| text(d)).collect())),
    ])
}

fn file(links: Option<ConfigValue>, contracts: Option<ConfigValue>) -> MainConfigFile {
    MainConfigFile { project: ProjectConfigFile { name: "demo".to_string() }, links, contracts }
}

#[test]
fn well_formed_entries_are_read() {
    let links = ConfigValue::List(vec![
        table(vec![("contract_id", text("ST1.token"))]),
        table(vec![("other", text("x"))]),
        text("loose"),
        table(vec![("contract_id", text("ST2.vault"))]),
    ]);
    let contracts = table(vec![
        ("a", contract_entry("contracts/a.clar", &[])),
        ("b", contract_entry("contracts/b.clar", &["a"])),
    ]);
    let cfg = MainConfig::from_config_file(file(Some(links), Some(contracts))).unwrap();
    assert_eq!(cfg.project.name, "demo");
    let ids: Vec<String> = cfg.links.unwrap().into_iter().map(|l| l.contract_id).collect();
    assert_eq!(ids, vec!["ST1.token", "ST2.vault"]);
    let roster = cfg.contracts.unwrap();
    assert_eq!(roster.len(), 2);
    assert_eq!(roster[0].0, "a");
    assert_eq!(roster[1].0, "b");
    assert_eq!(roster[1].1.path, "contracts/b.clar");
    assert_eq!(roster[1].1.depends_on, vec!["a".to_string()]);
}

#[test]
fn missing_sections_give_empty_lists() {
    let cfg = MainConfig::from_config_file(file(None, Some(text("not a table")))).unwrap();
    assert!(cfg.links.unwrap().is_empty());
    assert!(cfg.contracts.unwrap().is_empty());
}

#[test]
fn later_entry_of_a_name_replaces_the_earlier() {
    let contracts = table(vec![
        ("a", contract_entry("first.clar", &[])),
        ("b", contract_entry("b.clar", &[])),
        ("a", contract_entry("second.clar", &["b"])),
    ]);
    let roster = MainConfig::from_config_file(file(None, Some(contracts))).unwrap().contracts.unwrap();
    assert_eq!(roster.len(), 2);
    assert_eq!(roster[0].0, "a");
    assert_eq!(roster[0].1.path, "second.clar");
    assert_eq!(roster[1].0, "b");
}

fn project(links: &[&str], contracts: &[&str]) -> MainConfig {
    let links = ConfigValue::List(links.iter().map(|l| table(vec![("contract_id", text(l))])).collect());
    let contracts = table(contracts.iter().map(|c| (*c, contract_entry("old.clar", &[]))).collect());
    MainConfig::from_config_file(file(Some(links), Some(contracts))).unwrap()
}

fn edition(links: &[&str], contracts: &[&str]) -> TOMLEdition {
    TOMLEdition {
        comment: "edit".to_string(),
        path: "Clarinet.toml".to_string(),
        contracts_to_add: contracts
            .iter()
            .map(|c| (c.to_string(), ContractConfig { path: "new.clar".to_string(), depends_on: vec![] }))
            .collect(),
        links_to_add: links.iter().map(|l| LinkConfig { contract_id: l.to_string() }).collect(),
    }
}

#[test]
fn edition_adds_new_links_once() {
    let mut cfg = project(&["ST1.a"], &[]);
    let dirty = apply_toml_edition(&mut cfg, &edition(&["ST1.a", "ST2.b", "ST2.b"], &[]));
    assert!(dirty);
    let ids: Vec<String> = cfg.links.unwrap().into_iter().map(|l| l.contract_id).collect();
    assert_eq!(ids, vec!["ST1.a", "ST2.b"]);
}

#[test]
fn edition_with_nothing_new_is_clean() {
    let mut cfg = project(&["ST1.a"], &["x"]);
    let dirty = apply_toml_edition(&mut cfg, &edition(&["ST1.a"], &["x"]));
    assert!(!dirty);
    let roster = cfg.contracts.unwrap();
    assert_eq!(roster.len(), 1);
    assert_eq!(roster[0].1.path, "new.clar");
}

#[test]
fn edition_appends_new_contracts() {
    let mut cfg = project(&[], &["x"]);
    let dirty = apply_toml_edition(&mut cfg, &edition(&[], &["y"]));
    assert!(dirty);
    let roster = cfg.contracts.unwrap();
    let names: Vec<String> = roster.iter().map(|(n, _)| n.clone()).collect();
    assert_eq!(names, vec!["x", "y"]);
    assert_eq!(roster[0].1.path, "old.clar");
}

fn malformed_name(entries: Vec<(&str, ConfigValue)>) -> String {
    match MainConfig::from_config_file(file(None, Some(table(entries)))) {
        Err(ConfigError::MalformedEntry { name }) => name,
        other => panic!("expected a malformed entry, got {:?}", other),
    }
}

#[test]
fn dependency_that_is_not_a_string_is_malformed() {
    let bad = table(vec![
        ("path", text("y.clar")),
        ("depends_on", ConfigValue::List(vec![text("a"), ConfigValue::Other])),
    ]);
    assert_eq!(malformed_name(vec![("a", contract_entry("a.clar", &[])), ("bad_dep", bad)]), "bad_dep");
}

#[test]
fn entry_without_path_or_dependencies_is_malformed() {
    let no_path = table(vec![("depends_on", ConfigValue::List(vec![]))]);
    assert_eq!(malformed_name(vec![("no_path", no_path)]), "no_path");
    let no_deps = table(vec![("path", text("x.clar"))]);
    assert_eq!(malformed_name(vec![("no_deps", no_deps)]), "no_deps");
    assert_eq!(malformed_name(vec![("loose", text("z"))]), "loose");
}

#[test]
fn first_malformed_entry_is_reported() {
    let entries = vec![
        ("a", contract_entry("a.clar", &[])),
        ("first", text("x")),
        ("second", table(vec![])),
    ];
    assert_eq!(malformed_name(entries), "first");
}
