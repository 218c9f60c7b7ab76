//! The abstract syntax of Boolean expressions that a front end lowers onto a pool.

use vstd::prelude::*;

verus! {

/// A Boolean expression over named variables.
#[derive(Debug)]
pub enum Expr {
    Var(Var),
    Not(Box<Expr>),
    And(Box<Expr>, Box<Expr>),
    Or(Box<Expr>, Box<Expr>),
    Exists(Vec<Var>, Box<Expr>),
}

/// A variable, known by its name.
#[derive(Debug, Hash, PartialEq, Eq)]
pub struct Var(pub String);

} // verus!
