//! The abstract syntax tree consumed by the compiler.  It is produced by an
//! external front end; the compiler walks it once and emits bytecode.

use crate::bigint::BigInt;
use vstd::prelude::*;

verus! {

/// A whole program: an ordered list of statements.
pub struct Program {
    pub statements: Vec<Statement>,
}

pub enum Statement {
    VariableDeclaration { name: String, value: Expression },
    FunctionDeclaration { name: String, parameters: Vec<Parameter>, body: Vec<Statement> },
    If {
        condition: Expression,
        then_branch: Vec<Statement>,
        else_branch: Option<Vec<Statement>>,
    },
    While { condition: Expression, body: Vec<Statement> },
    For { variable: String, start: Expression, end: Expression, body: Vec<Statement> },
    Show(Expression),
    Return(Option<Expression>),
    Expression(Expression),
    Import(String),
    Export(Box<Statement>),
    TryCatch {
        try_block: Vec<Statement>,
        catch_variable: String,
        catch_block: Vec<Statement>,
    },
}

pub enum Expression {
    Literal(Literal),
    Identifier(String),
    Binary { left: Box<Expression>, operator: BinaryOperator, right: Box<Expression> },
    Unary { operator: UnaryOperator, operand: Box<Expression> },
    FunctionCall { name: String, arguments: Vec<Expression> },
    MethodCall { object: Box<Expression>, method: String, arguments: Vec<Expression> },
    Array { elements: Vec<Expression> },
    Object { properties: Vec<(String, Expression)> },
    Index { object: Box<Expression>, index: Box<Expression> },
    PropertyAccess { object: Box<Expression>, property: String },
    Lambda { parameters: Vec<Parameter>, body: Box<Expression> },
}

/// A declared function or lambda parameter.
pub struct Parameter {
    pub name: String,
    pub default_value: Option<Expression>,
    pub is_variadic: bool,
}

/// A literal value in the source.  Floating-point literals carry their
/// IEEE-754 bit pattern.
pub enum Literal {
    String(String),
    Integer(i64),
    BigInteger(BigInt),
    Float(u64),
    Boolean(bool),
    Null,
    Array(Vec<Literal>),
    Object(Vec<(String, Literal)>),
}

#[derive(Clone, Copy, PartialEq, Eq, Debug)]
pub enum BinaryOperator {
    Add,
    Subtract,
    Multiply,
    Divide,
    Modulo,
    Equal,
    NotEqual,
    Greater,
    GreaterEqual,
    Less,
    LessEqual,
    And,
    Or,
}

#[derive(Clone, Copy, PartialEq, Eq, Debug)]
pub enum UnaryOperator {
    Not,
    Minus,
}

} // verus!
