use cargo_dot::graph::Graph;
use cargo_dot::package::{PackageIdentity, ResolvedPackage};

fn pid(name: &str) -> PackageIdentity {
    PackageIdentity::new(
        name.to_string(),
        "1.0.0".to_string(),
        format!("registry+https://example.invalid/{}", name),
    )
}

fn entry(name: &str, deps: &[&str]) -> ResolvedPackage {
    ResolvedPackage::new(pid(name), Some(deps.iter().map(|d| pid(d)).collect()))
}

#[test]
fn three_package_example() {
    let mut g = Graph::with_root(pid("app"), false);
    let resolved = vec![
        entry("app", &["lib-a", "lib-b"]),
        entry("lib-a", &["lib-b"]),
        entry("lib-b", &[]),
    ];
    g.add_dependencies(&resolved);
    assert_eq!(g.nodes().len(), 3);
    let edges = g.edges().clone();
    assert_eq!(edges, vec![(0, 1), (0, 2), (1, 2)]);
}

#[test]
fn root_keeps_index_zero() {
    let mut g = Graph::with_root(pid("app"), false);
    // The resolver lists a dependency before the root: the root still sits at 0.
    let resolved = vec![entry("lib-b", &[]), entry("app", &["lib-b"])];
    g.add_dependencies(&resolved);
    assert_eq!(g.nodes().len(), 2);
    assert_eq!(g.edges().clone(), vec![(0, 1)]);
    assert_eq!(g.node_label(0), "app");
    assert_eq!(g.node_label(1), "lib-b");
}

#[test]
fn equal_identities_share_one_node() {
    let mut g = Graph::with_root(pid("app"), false);
    let i1 = g.find_or_add(pid("dep"));
    let i2 = g.find_or_add(pid("dep"));
    assert_eq!(i1, 1);
    assert_eq!(i2, 1);
    assert_eq!(g.nodes().len(), 2);
}

#[test]
fn differing_version_makes_a_new_node() {
    let mut g = Graph::with_root(pid("app"), false);
    let a = PackageIdentity::new("dep".to_string(), "1.0.0".to_string(), "s".to_string());
    let b = PackageIdentity::new("dep".to_string(), "2.0.0".to_string(), "s".to_string());
    let ia = g.find_or_add(a);
    let ib = g.find_or_add(b);
    assert_ne!(ia, ib);
    assert_eq!(g.nodes().len(), 3);
}

#[test]
fn duplicate_dependency_yields_two_edges() {
    let mut g = Graph::with_root(pid("app"), false);
    let resolved = vec![entry("app", &["lib-a", "lib-a"])];
    g.add_dependencies(&resolved);
    assert_eq!(g.edges().clone(), vec![(0, 1), (0, 1)]);
}

#[test]
fn unknown_dependency_list_forces_no_node() {
    let mut g = Graph::with_root(pid("app"), false);
    let resolved = vec![
        ResolvedPackage::new(pid("orphan"), None),
        entry("app", &["lib-a"]),
    ];
    g.add_dependencies(&resolved);
    // `orphan` carries no dependency data and nothing depends on it: no node.
    assert_eq!(g.nodes().len(), 2);
    assert_eq!(g.edges().clone(), vec![(0, 1)]);
}

#[test]
fn dependency_only_package_gets_a_node() {
    let mut g = Graph::with_root(pid("app"), false);
    // `leaf` never appears as an entry, only as a dependency.
    let resolved = vec![entry("app", &["leaf"])];
    g.add_dependencies(&resolved);
    assert_eq!(g.nodes().len(), 2);
    assert_eq!(g.node_label(1), "leaf");
}

#[test]
fn source_and_target_project_edges() {
    let g = Graph::with_root(pid("app"), false);
    let e = (3usize, 7usize);
    assert_eq!(g.source(&e), 3);
    assert_eq!(g.target(&e), 7);
}

#[test]
fn built_graph_is_renderable() {
    let mut g = Graph::with_root(pid("app"), false);
    let resolved = vec![entry("app", &["lib-a"]), entry("lib-a", &[])];
    g.add_dependencies(&resolved);
    assert!(g.is_renderable());
}
