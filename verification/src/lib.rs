//! Per-function control-flow-graph construction over a parsed syntax tree.
//!
//! The library works on an owned, plain-value model of a syntax tree
//! ([`tree::SyntaxTree`]): nodes carry a kind tag, a byte span, decoded text,
//! and links to their children. A lazy depth-first walker ([`walker`])
//! enumerates the nodes, the extractor ([`extract`]) collects function
//! definitions, and the builder ([`cfg`]) turns each function body into a
//! basic-block graph.

pub mod analysis;
pub mod cfg;
pub mod errors;
pub mod extract;
pub mod tree;
pub mod walker;
