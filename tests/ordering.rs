use clarinet::config::{ConfigError, ContractConfig, MainConfig, ProjectConfig};
use clarinet::graph::{Graph, GraphWalker};

fn contract(name: &str, deps: &[&str]) -> (String, ContractConfig) {
    (
        name.to_string(),
        ContractConfig {
            path: format!("contracts/{}.clar", name),
            depends_on: deps.iter().map(|d| d.to_string()).collect(),
        },
    )
}

fn config(contracts: Vec<(String, ContractConfig)>) -> MainConfig {
    MainConfig {
        project: ProjectConfig { name: "demo".to_string() },
        links: None,
        contracts: Some(contracts),
    }
}

fn names(order: &[(String, ContractConfig)]) -> Vec<String> {
    order.iter().map(|(n, _)| n.clone()).collect()
}

fn position(order: &[String], name: &str) -> usize {
    order.iter().position(|n| n == name).unwrap()
}

#[test]
fn chain_is_ordered_dependencies_first() {
    let cfg = config(vec![contract("A", &[]), contract("B", &["A"]), contract("C", &["B"])]);
    let order = cfg.ordered_contracts().unwrap();
    assert_eq!(names(&order), vec!["A", "B", "C"]);
    assert_eq!(order[1].1.path, "contracts/B.clar");
    assert_eq!(order[1].1.depends_on, vec!["A".to_string()]);
}

#[test]
fn dependencies_listed_later_still_come_first() {
    let cfg = config(vec![contract("C", &["B"]), contract("B", &["A"]), contract("A", &[])]);
    let order = cfg.ordered_contracts().unwrap();
    assert_eq!(names(&order), vec!["A", "B", "C"]);
}

#[test]
fn transitive_dependencies_precede_dependents() {
    let cfg = config(vec![
        contract("app", &["token", "math"]),
        contract("math", &[]),
        contract("token", &["math", "trait"]),
        contract("trait", &[]),
        contract("vault", &["app"]),
    ]);
    let order = names(&cfg.ordered_contracts().unwrap());
    assert_eq!(order.len(), 5);
    assert!(position(&order, "math") < position(&order, "token"));
    assert!(position(&order, "trait") < position(&order, "token"));
    assert!(position(&order, "token") < position(&order, "app"));
    assert!(position(&order, "math") < position(&order, "app"));
    assert!(position(&order, "app") < position(&order, "vault"));
    assert!(position(&order, "trait") < position(&order, "vault"));
    assert_eq!(order, vec!["math", "trait", "token", "app", "vault"]);
}

#[test]
fn sorting_twice_gives_the_same_order() {
    let cfg = config(vec![
        contract("d", &["b", "c"]),
        contract("b", &["a"]),
        contract("c", &["a"]),
        contract("a", &[]),
    ]);
    let first = names(&cfg.ordered_contracts().unwrap());
    let second = names(&cfg.ordered_contracts().unwrap());
    assert_eq!(first, second);

    let mut graph = Graph::new();
    for i in 0..4 {
        graph.add_node(i);
    }
    graph.add_directed_edge(0, 1);
    graph.add_directed_edge(0, 2);
    graph.add_directed_edge(1, 3);
    graph.add_directed_edge(2, 3);
    let a = GraphWalker::new().get_sorted_dependencies(&graph);
    let b = GraphWalker::new().get_sorted_dependencies(&graph);
    assert_eq!(a, b);
    assert_eq!(a, vec![3, 1, 2, 0]);
}

#[test]
fn two_contracts_depending_on_each_other_are_a_cycle() {
    let cfg = config(vec![contract("A", &["B"]), contract("B", &["A"])]);
    match cfg.ordered_contracts() {
        Err(ConfigError::Cycle { names }) => {
            assert!(names.contains(&"A".to_string()));
            assert!(names.contains(&"B".to_string()));
            assert_eq!(names, vec!["A", "B"]);
        }
        other => panic!("expected a cycle, got {:?}", other),
    }
}

#[test]
fn self_dependency_is_a_cycle() {
    let cfg = config(vec![contract("A", &[]), contract("S", &["S"])]);
    match cfg.ordered_contracts() {
        Err(ConfigError::Cycle { names }) => assert_eq!(names, vec!["S"]),
        other => panic!("expected a cycle, got {:?}", other),
    }
}

#[test]
fn contract_behind_a_cycle_is_reported_with_it() {
    let cfg = config(vec![
        contract("base", &[]),
        contract("x", &["y", "base"]),
        contract("y", &["x"]),
        contract("top", &["x"]),
    ]);
    match cfg.ordered_contracts() {
        Err(ConfigError::Cycle { names }) => {
            assert!(names.contains(&"x".to_string()));
            assert!(names.contains(&"y".to_string()));
            assert!(!names.contains(&"base".to_string()));
            assert_eq!(names, vec!["x", "y", "top"]);
        }
        other => panic!("expected a cycle, got {:?}", other),
    }
}

#[test]
fn unknown_dependency_is_rejected() {
    let cfg = config(vec![contract("A", &["Z"])]);
    match cfg.ordered_contracts() {
        Err(ConfigError::UnknownDependency { dependent, missing }) => {
            assert_eq!(dependent, "A");
            assert_eq!(missing, "Z");
        }
        other => panic!("expected an unknown dependency, got {:?}", other),
    }
}

#[test]
fn first_unknown_dependency_is_the_one_reported() {
    let cfg = config(vec![
        contract("A", &[]),
        contract("B", &["A", "X"]),
        contract("C", &["Y", "B", "C"]),
    ]);
    match cfg.ordered_contracts() {
        Err(ConfigError::UnknownDependency { dependent, missing }) => {
            assert_eq!(dependent, "B");
            assert_eq!(missing, "X");
        }
        other => panic!("expected an unknown dependency, got {:?}", other),
    }
}

#[test]
fn no_contracts_gives_an_empty_order() {
    let cfg = MainConfig {
        project: ProjectConfig { name: "demo".to_string() },
        links: None,
        contracts: None,
    };
    assert!(cfg.ordered_contracts().unwrap().is_empty());
    assert!(config(vec![]).ordered_contracts().unwrap().is_empty());
}

#[test]
fn graph_records_nodes_and_edges() {
    let mut graph = Graph::new();
    assert_eq!(graph.nodes_count(), 0);
    graph.add_node(0);
    graph.add_node(1);
    graph.add_directed_edge(1, 0);
    assert_eq!(graph.nodes_count(), 2);
    assert_eq!(graph.get_node_descendants(1), vec![0]);
    assert!(graph.get_node_descendants(0).is_empty());
    assert!(graph.has_node_descendants(1));
    assert!(!graph.has_node_descendants(0));
}

#[test]
fn cycle_check_on_acyclic_graph_finds_nothing() {
    let mut graph = Graph::new();
    for i in 0..3 {
        graph.add_node(i);
    }
    graph.add_directed_edge(2, 1);
    graph.add_directed_edge(1, 0);
    let mut walker = GraphWalker::new();
    let sorted = walker.get_sorted_dependencies(&graph);
    assert_eq!(sorted, vec![0, 1, 2]);
    assert_eq!(walker.get_cycling_dependencies(&graph, &sorted), None);
}

#[test]
fn cycle_check_returns_untainted_ids_in_ascending_order() {
    let mut graph = Graph::new();
    for i in 0..4 {
        graph.add_node(i);
    }
    graph.add_directed_edge(3, 1);
    graph.add_directed_edge(1, 3);
    graph.add_directed_edge(2, 0);
    let mut walker = GraphWalker::new();
    let sorted = walker.get_sorted_dependencies(&graph);
    assert_eq!(sorted, vec![0, 3, 1, 2]);
    assert_eq!(walker.get_cycling_dependencies(&graph, &sorted), Some(vec![1, 3]));
}
