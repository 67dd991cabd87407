// Turns a resolved package dependency set into a directed graph and renders
// it as a graphviz document: identities are deduplicated into stable node
// indices, dependency edges are collected as index pairs, and the text is
// emitted with configurable node labeling and proved escaping rules.

pub mod graph;
pub mod laws;
pub mod package;
pub mod render;
pub mod sink;
pub mod util;
