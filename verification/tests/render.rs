use cargo_dot::graph::Graph;
use cargo_dot::package::{PackageIdentity, ResolvedPackage};
use cargo_dot::sink::{FatalError, WriterCompat};
use cargo_dot::util::unless_empty;

fn pid(name: &str) -> PackageIdentity {
    PackageIdentity::new(name.to_string(), "1.0.0".to_string(), format!("src-of-{}", name))
}

fn entry(name: &str, deps: &[&str]) -> ResolvedPackage {
    ResolvedPackage::new(pid(name), Some(deps.iter().map(|d| pid(d)).collect()))
}

#[test]
fn renders_three_package_example() {
    let mut g = Graph::with_root(pid("app"), false);
    let resolved = vec![
        entry("app", &["lib-a", "lib-b"]),
        entry("lib-a", &["lib-b"]),
        entry("lib-b", &[]),
    ];
    g.add_dependencies(&resolved);
    let text = g.render();
    let expected = "digraph app {\n    N0 [label=\"app\"];\n    N1 [label=\"lib-a\"];\n    N2 [label=\"lib-b\"];\n    N0 -> N1;\n    N0 -> N2;\n    N1 -> N2;\n}\n";
    assert_eq!(text, expected);
}

#[test]
fn empty_root_name_falls_back_to_fixed_identifier() {
    let mut g = Graph::with_root(
        PackageIdentity::new(String::new(), "0.1.0".to_string(), "s".to_string()),
        false,
    );
    g.add_dependencies(&Vec::new());
    assert_eq!(g.graph_id(), "dependencies");
    assert!(g.render().starts_with("digraph dependencies {"));
}

#[test]
fn invalid_only_root_name_falls_back() {
    let g = Graph::with_root(
        PackageIdentity::new("-/-".to_string(), "0.1.0".to_string(), "s".to_string()),
        false,
    );
    assert_eq!(g.graph_id(), "dependencies");
}

#[test]
fn digit_led_root_name_falls_back() {
    let g = Graph::with_root(
        PackageIdentity::new("1password".to_string(), "0.1.0".to_string(), "s".to_string()),
        false,
    );
    assert_eq!(g.graph_id(), "dependencies");
}

#[test]
fn invalid_characters_are_dropped_from_identifier() {
    let g = Graph::with_root(
        PackageIdentity::new("my-lib".to_string(), "0.1.0".to_string(), "s".to_string()),
        false,
    );
    assert_eq!(g.graph_id(), "mylib");
}

#[test]
fn quote_in_name_is_escaped() {
    let mut g = Graph::with_root(
        PackageIdentity::new("weird\"name".to_string(), "0.1.0".to_string(), "s".to_string()),
        false,
    );
    g.add_dependencies(&Vec::new());
    assert_eq!(g.node_label(0), "weird\\\"name");
    let text = g.render();
    assert!(text.contains("[label=\"weird\\\"name\"]"));
}

#[test]
fn backslash_in_name_is_escaped() {
    let g = Graph::with_root(
        PackageIdentity::new("back\\slash".to_string(), "0.1.0".to_string(), "s".to_string()),
        false,
    );
    assert_eq!(g.node_label(0), "back\\\\slash");
}

#[test]
fn source_labels_show_source_locations() {
    let mut g = Graph::with_root(pid("app"), true);
    let resolved = vec![entry("app", &["lib-a"])];
    g.add_dependencies(&resolved);
    assert_eq!(g.node_label(0), "src-of-app");
    assert_eq!(g.node_label(1), "src-of-lib-a");
    let text = g.render();
    assert!(text.contains("[label=\"src-of-app\"]"));
}

#[test]
fn rendering_twice_is_byte_identical() {
    let mut g = Graph::with_root(pid("app"), false);
    let resolved = vec![entry("app", &["lib-a", "lib-b"]), entry("lib-a", &["lib-b"])];
    g.add_dependencies(&resolved);
    let first = g.render();
    let second = g.render();
    assert_eq!(first.as_bytes(), second.as_bytes());
}

#[test]
fn node_ids_are_n_plus_index() {
    let g = Graph::with_root(pid("app"), false);
    assert_eq!(g.node_id(0), "N0");
    assert_eq!(g.node_id(9), "N9");
    assert_eq!(g.node_id(42), "N42");
    assert_eq!(g.node_id(1200300), "N1200300");
}

#[test]
fn render_to_writes_the_document_to_the_sink() {
    let mut g = Graph::with_root(pid("app"), false);
    let resolved = vec![entry("app", &[])];
    g.add_dependencies(&resolved);
    let mut sink = WriterCompat::new();
    let outcome = g.render_to(&mut sink);
    assert!(outcome.is_ok());
    assert_eq!(sink.into_string(), g.render());
}

#[test]
fn writer_compat_accumulates_writes() {
    let mut sink = WriterCompat::new();
    assert!(sink.write_all("digraph ").is_ok());
    assert!(sink.write_all("x {}").is_ok());
    assert_eq!(sink.into_string(), "digraph x {}");
}

#[test]
fn unless_empty_picks_the_default_only_when_empty() {
    assert_eq!(unless_empty(String::new(), "Cargo.lock"), "Cargo.lock");
    assert_eq!(unless_empty("other.lock".to_string(), "Cargo.lock"), "other.lock");
}

#[test]
fn fatal_errors_describe_themselves() {
    assert_eq!(
        FatalError::SinkWriteFailure.describe(),
        "error rendering graph: write to output failed"
    );
    assert_eq!(
        FatalError::InputUnavailable.describe(),
        "resolved dependency data could not be read"
    );
    assert_eq!(FatalError::RootUnresolvable.describe(), "root package could not be determined");
    assert_eq!(FatalError::ConfigurationError.describe(), "invalid invocation options");
}
