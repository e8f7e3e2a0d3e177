//! Expressions.

use crate::ast::variable::Identifier;
use crate::lexer::token::NumericValue;
use vstd::prelude::*;
use vstd::std_specs::convert::FromSpecImpl;

verus! {

/// An expression of the language.
#[derive(Debug)]
pub enum Expression {
    Literal(Literal),
    Bin(BinaryExp),
    Unary(UnaryExpr),
    Identifier(Identifier),
}

/// A literal value.
#[derive(Debug)]
pub enum Literal {
    String(Str),
    Number(Number),
    Null,
    Undefined,
    Boolean(Boolean),
}

/// The text of a string literal.
#[derive(Debug)]
pub struct Str {
    pub value: String,
}

/// The exact value of a numeric literal.
#[derive(Debug)]
pub struct Number {
    pub value: NumericValue,
}

/// The value of `true` or `false`.
#[derive(Debug)]
pub struct Boolean {
    pub value: bool,
}

/// The operators with two operands.
#[derive(Debug, Clone, Copy, PartialEq, Eq, Structural)]
pub enum BinaryOpt {
    Add,
    Sub,
    Div,
    Mul,
    Lt,
    Gt,
}

/// The operators with one operand.
#[derive(Debug, Clone, Copy, PartialEq, Eq, Structural)]
pub enum UnaryOp {
    Add,
    Sub,
    Bang,
}

/// An operator applied to two expressions.
#[derive(Debug)]
pub struct BinaryExp {
    pub operator: BinaryOpt,
    pub left: Box<Expression>,
    pub right: Box<Expression>,
}

/// An operator applied to one expression.
#[derive(Debug)]
pub struct UnaryExpr {
    pub operator: UnaryOp,
    pub argument: Box<Expression>,
}

/// Mathematical counterpart of [`Literal`].
pub enum LiteralView {
    String(Seq<char>),
    Number(NumericValue),
    Null,
    Undefined,
    Boolean(bool),
}

/// Mathematical counterpart of [`Expression`].
pub enum ExpressionView {
    Literal(LiteralView),
    Bin(BinaryOpt, Box<ExpressionView>, Box<ExpressionView>),
    Unary(UnaryOp, Box<ExpressionView>),
    Identifier(Seq<char>),
}

impl View for Literal {
    type V = LiteralView;

    open spec fn view(&self) -> LiteralView {
        match *self {
            Literal::String(s) => LiteralView::String(s.value@),
            Literal::Number(n) => LiteralView::Number(n.value),
            Literal::Null => LiteralView::Null,
            Literal::Undefined => LiteralView::Undefined,
            Literal::Boolean(b) => LiteralView::Boolean(b.value),
        }
    }
}

impl Expression {
    /// The expression as a mathematical value.
    pub open spec fn model(self) -> ExpressionView
        decreases self,
    {
        match self {
            Expression::Literal(l) => ExpressionView::Literal(l@),
            Expression::Bin(b) => ExpressionView::Bin(
                b.operator,
                Box::new((*b.left).model()),
                Box::new((*b.right).model()),
            ),
            Expression::Unary(u) => ExpressionView::Unary(
                u.operator,
                Box::new((*u.argument).model()),
            ),
            Expression::Identifier(i) => ExpressionView::Identifier(i@),
        }
    }
}

impl View for Expression {
    type V = ExpressionView;

    open spec fn view(&self) -> ExpressionView {
        self.model()
    }
}

impl From<String> for Literal {
    #[inline]
    fn from(st: String) -> (r: Self) {
        Self::String(Str { value: st })
    }
}

impl FromSpecImpl<String> for Literal {
    open spec fn obeys_from_spec() -> bool {
        true
    }

    open spec fn from_spec(st: String) -> Self {
        Self::String(Str { value: st })
    }
}

impl From<NumericValue> for Literal {
    #[inline]
    fn from(n: NumericValue) -> (r: Self) {
        Self::Number(Number { value: n })
    }
}

impl FromSpecImpl<NumericValue> for Literal {
    open spec fn obeys_from_spec() -> bool {
        true
    }

    open spec fn from_spec(n: NumericValue) -> Self {
        Self::Number(Number { value: n })
    }
}

impl From<bool> for Literal {
    #[inline]
    fn from(n: bool) -> (r: Self) {
        Self::Boolean(Boolean { value: n })
    }
}

impl FromSpecImpl<bool> for Literal {
    open spec fn obeys_from_spec() -> bool {
        true
    }

    open spec fn from_spec(n: bool) -> Self {
        Self::Boolean(Boolean { value: n })
    }
}

impl From<Literal> for Expression {
    #[inline]
    fn from(n: Literal) -> (r: Expression) {
        Self::Literal(n)
    }
}

impl FromSpecImpl<Literal> for Expression {
    open spec fn obeys_from_spec() -> bool {
        true
    }

    open spec fn from_spec(n: Literal) -> Self {
        Self::Literal(n)
    }
}

} // verus!
