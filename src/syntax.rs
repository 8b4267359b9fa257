//! Tokens and expression trees, with their mathematical models.

use vstd::prelude::*;
use crate::rational::Rational;

verus! {

/// The model of a token: numbers by numerator and denominator, names by
/// their characters.
pub enum Tok {
    Number((int, int)),
    Operator(char),
    Function(Seq<char>),
    Variable(Seq<char>),
    LeftParenthesis,
    RightParenthesis,
}

/// One unit of source text.
///
/// `Function` is part of the vocabulary but the lexer never produces it: a
/// call is recognised by the parser as a name followed by `(`.
#[derive(Clone, Debug, PartialEq)]
pub enum ExpressionTokens {
    Number(Rational),
    Operator(char),
    Function(String),
    Variable(String),
    LeftParenthesis,
    RightParenthesis,
}

impl View for ExpressionTokens {
    type V = Tok;

    open spec fn view(&self) -> Tok {
        match self {
            ExpressionTokens::Number(n) => Tok::Number(n@),
            ExpressionTokens::Operator(c) => Tok::Operator(*c),
            ExpressionTokens::Function(s) => Tok::Function(s@),
            ExpressionTokens::Variable(s) => Tok::Variable(s@),
            ExpressionTokens::LeftParenthesis => Tok::LeftParenthesis,
            ExpressionTokens::RightParenthesis => Tok::RightParenthesis,
        }
    }
}

/// The models of a sequence of tokens.
pub open spec fn toks(ts: Seq<ExpressionTokens>) -> Seq<Tok> {
    ts.map_values(|t: ExpressionTokens| t@)
}

/// The model of an expression tree.
pub enum Expr {
    Number((int, int)),
    Variable(Seq<char>),
    Operator(char, Box<Expr>, Box<Expr>),
    UnaryOperator(char, Box<Expr>),
    Function(Seq<char>, Box<Expr>),
}

/// An expression tree; each node owns its children.
#[derive(Debug, PartialEq)]
pub enum ASTNode {
    Number(Rational),
    Operator { operator: char, left: Box<ASTNode>, right: Box<ASTNode> },
    Function { name: String, argument: Box<ASTNode> },
    Variable(String),
    UnaryOperator { operator: char, operand: Box<ASTNode> },
}

impl ASTNode {
    /// The model of the tree.
    pub open spec fn expr(&self) -> Expr
        decreases self,
    {
        match self {
            ASTNode::Number(n) => Expr::Number(n@),
            ASTNode::Variable(s) => Expr::Variable(s@),
            ASTNode::Operator { operator, left, right } => Expr::Operator(
                *operator,
                Box::new(left.expr()),
                Box::new(right.expr()),
            ),
            ASTNode::UnaryOperator { operator, operand } => Expr::UnaryOperator(
                *operator,
                Box::new(operand.expr()),
            ),
            ASTNode::Function { name, argument } => Expr::Function(
                name@,
                Box::new(argument.expr()),
            ),
        }
    }
}

} // verus!
