//! Abstract syntax tree nodes for the language.
//!
//! These are plain data containers with no behavior; a future parser that
//! consumes the token stream builds values of these types.

use vstd::prelude::*;

verus! {

/// A whole source program: a sequence of top-level statements.
#[derive(Debug)]
pub struct Program {
    pub statements: Vec<Statement>,
}

/// A statement node.
#[derive(Debug)]
pub enum Statement {
    Break,
    Continue,
    Pass,
    Assert { test: Expression, msg: Expression },
    Expression { expression: Expression },
    If { test: Expression, body: Vec<Statement> },
    While { test: Expression, body: Vec<Statement> },
    With { items: Expression, body: Vec<Statement> },
    For {
        target: Vec<Expression>,
        iter: Vec<Expression>,
        body: Vec<Statement>,
        or_else: Option<Vec<Statement>>,
    },
    ClassDef { name: String },
    FunctionDef { name: String, body: Vec<Statement> },
}

/// An expression node.
#[derive(Debug)]
pub enum Expression {
    Binop { a: Box<Expression>, op: Operator, b: Box<Expression> },
    Call { function: Box<Expression>, args: Vec<Expression> },
    Number { value: i32 },
    List { elements: Vec<Expression> },
    String { value: String },
    Identifier { name: String },
    True,
    False,
    NoneLiteral,
}

/// A binary operator.
#[derive(Debug)]
pub enum Operator {
    Add,
    Sub,
    Mult,
    MatMult,
    Div,
    Mod,
    Pow,
    LShift,
    RShift,
    BitOr,
    BitXor,
    BitAnd,
    FloorDiv,
}

} // verus!
