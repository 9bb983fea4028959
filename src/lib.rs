//! Evaluation of a graph of numeric formulas.
//!
//! Nodes are built from flat definitions into an arena ([`Tree`]) and
//! evaluated recursively; a formula sees each input under the identifier
//! `id<N>`, and shorter inputs repeat their last value to the length of the
//! longest. Numbers are carried as the bit patterns of IEEE-754 binary64
//! values.
pub mod eval;
pub mod formula;
pub mod laws;
pub mod node;
pub mod rows;
pub mod text;
pub mod tree;

pub use node::{
    BuildError, EdgeDefinition, EvalError, Node, NodeDefinition, NodeKind, NodeOutput, CONSTANT,
    CONSTANT_SEQUENCE, EXTERNAL_QUERY, FORMULA, VARIABLE,
};
pub use rows::{edges_from_rows, nodes_from_rows, RowError};
pub use text::{identifier, parse_scalar, parse_sequence};
pub use tree::Tree;
