//! Variables and their declarations.

use crate::ast::expression::{Expression, ExpressionView};
use vstd::prelude::*;

verus! {

/// A name.
#[derive(Debug)]
pub struct Identifier {
    value: String,
}

impl View for Identifier {
    type V = Seq<char>;

    closed spec fn view(&self) -> Seq<char> {
        self.value@
    }
}

/// A declared variable: its name and the expression that initialises it,
/// if there is one.
#[derive(Debug)]
pub struct Variable {
    name: Identifier,
    init: Option<Expression>,
}

/// Mathematical counterpart of [`Variable`].
pub struct VariableView {
    pub name: Seq<char>,
    pub init: Option<ExpressionView>,
}

impl View for Variable {
    type V = VariableView;

    closed spec fn view(&self) -> VariableView {
        VariableView {
            name: self.name@,
            init: match self.init {
                Some(e) => Some(e@),
                None => None,
            },
        }
    }
}

/// The variables of one declaration, in their order.
#[derive(Debug)]
pub struct VariableDeclaration {
    pub list: Vec<Variable>,
}

impl View for VariableDeclaration {
    type V = Seq<VariableView>;

    open spec fn view(&self) -> Seq<VariableView> {
        self.list@.map_values(|v: Variable| v@)
    }
}

/// View of an optional expression.
pub open spec fn init_view(exp: Option<Expression>) -> Option<ExpressionView> {
    match exp {
        Some(e) => Some(e@),
        None => None,
    }
}

impl Variable {
    /// A variable of the given name, with or without an initialiser.
    pub fn new(name: String, exp: Option<Expression>) -> (r: Self)
        ensures
            r@ == (VariableView { name: name@, init: init_view(exp) }),
    {
        Self { name: Identifier { value: name }, init: exp }
    }

    /// The name of the variable.
    pub fn name(&self) -> (r: &str)
        ensures
            r@ == self@.name,
    {
        self.name.value.as_str()
    }

    /// The expression that initialises the variable, if there is one.
    pub fn init(&self) -> (r: &Option<Expression>)
        ensures
            init_view(*r) == self@.init,
    {
        &self.init
    }
}

} // verus!
