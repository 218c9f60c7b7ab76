//! Reduced ordered binary decision diagrams over a shared, hash-consed node arena.

pub mod bdd;
pub mod expr;
pub mod index_table;

pub use bdd::node::{InternalNode, Node, NodeKind};
pub use bdd::pool::Pool;
pub use expr::{Expr, Var};
pub use index_table::Id;
