//! Scopes: which names are declared.

use crate::lexer::token::str_eq;
use crate::parser::error::{parse_result_view, ParseError, ParseErrorView};
use vstd::prelude::*;

verus! {

broadcast use vstd::string::group_string_axioms;

/// The kinds of scope.
pub enum ScopeType {
    ScopeTop,
    ScopeFunction,
}

/// The names declared in one scope, in the order of their declaration.
/// No name occurs twice.
pub struct Scope {
    var_list: Vec<String>,
    type_flag: u8,
}

/// Mathematical counterpart of [`Scope`].
pub struct ScopeView {
    pub names: Seq<Seq<char>>,
    pub type_flag: u8,
}

impl View for Scope {
    type V = ScopeView;

    closed spec fn view(&self) -> ScopeView {
        ScopeView {
            names: self.var_list@.map_values(|s: String| s@),
            type_flag: self.type_flag,
        }
    }
}

impl Scope {
    #[verifier::type_invariant]
    spec fn inv(self) -> bool {
        self@.names.no_duplicates()
    }

    /// An empty top-level scope.
    pub fn new() -> (r: Self)
        ensures
            r@ == (ScopeView { names: Seq::empty(), type_flag: 1 }),
    {
        let r = Self { var_list: Vec::new(), type_flag: 1 };
        assert(r@.names =~= Seq::<Seq<char>>::empty());
        r
    }

    /// Whether `name` is declared in this scope.
    pub fn is_declared(&self, name: &str) -> (r: bool)
        ensures
            r == self@.names.contains(name@),
    {
        let mut i: usize = 0;
        while i < self.var_list.len()
            invariant
                i <= self.var_list.len(),
                forall|j: int| 0 <= j < i ==> self@.names[j] != name@,
            decreases self.var_list.len() - i,
        {
            if str_eq(self.var_list[i].as_str(), name) {
                assert(self@.names[i as int] == name@);
                return true;
            }
            i = i + 1;
        }
        false
    }

    /// Declares `name`, unless the scope has it already.
    pub fn declare(&mut self, name: &str) -> (r: Result<(), ParseError>)
        ensures
            final(self)@.names.no_duplicates(),
            old(self)@.names.contains(name@) ==> final(self)@ == old(self)@ && parse_result_view(r)
                == Err::<(), ParseErrorView>(ParseErrorView::AlreadyDeclared(name@)),
            !old(self)@.names.contains(name@) ==> r is Ok && final(self)@ == (ScopeView {
                names: old(self)@.names.push(name@),
                ..old(self)@
            }),
    {
        proof {
            use_type_invariant(&*self);
        }
        if self.is_declared(name) {
            Err(ParseError::AlreadyDeclared(name.to_owned()))
        } else {
            let mut list: Vec<String> = Vec::new();
            std::mem::swap(&mut list, &mut self.var_list);
            list.push(name.to_owned());
            assert(list@.map_values(|s: String| s@) =~= old(self)@.names.push(name@));
            self.var_list = list;
            Ok(())
        }
    }
}

} // verus!
