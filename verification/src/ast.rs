//! The abstract syntax tree that the lowering consumes.

use vstd::prelude::*;

verus! {

/// An expression of the language. Statements are expressions too: a function
/// body is a sequence of them.
#[derive(Debug)]
pub enum Expr {
    /// A numeric literal, kept as the text that was read.
    Literal(String),
    /// A read of a variable.
    Identifier(String),
    /// An assignment; its value is the value assigned.
    Assign(String, Box<Expr>),
    Eq(Box<Expr>, Box<Expr>),
    Ne(Box<Expr>, Box<Expr>),
    Lt(Box<Expr>, Box<Expr>),
    Le(Box<Expr>, Box<Expr>),
    Gt(Box<Expr>, Box<Expr>),
    Ge(Box<Expr>, Box<Expr>),
    Add(Box<Expr>, Box<Expr>),
    Sub(Box<Expr>, Box<Expr>),
    Mul(Box<Expr>, Box<Expr>),
    Div(Box<Expr>, Box<Expr>),
    /// Condition, then-body, else-body. Its value is that of the last
    /// statement of the body that ran, or zero where that body is empty.
    IfElse(Box<Expr>, Vec<Expr>, Vec<Expr>),
    /// Condition and body. Its value is always zero.
    WhileLoop(Box<Expr>, Vec<Expr>),
    /// Callee name and arguments.
    Call(String, Vec<Expr>),
}

} // verus!
