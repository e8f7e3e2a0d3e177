//! A parser over the token stream. It recognises declarations of the form
//! `let name = literal`.

pub mod error;
pub mod scope;

use crate::ast::expression::{Expression, ExpressionView, Literal, LiteralView};
use crate::ast::variable::{Variable, VariableDeclaration, VariableView};
use crate::lexer::grammar::{lex, LexerView};
use crate::lexer::lexer::Lexer;
use crate::lexer::token::{
    is_numeric_token, spec_is_numeric_token, str_eq, Token, TokenMatcher, TokenType, TokenView,
};
use crate::parser::error::{ParseError, ParseErrorView};
use crate::parser::scope::{Scope, ScopeView};
use vstd::prelude::*;

verus! {

broadcast use vstd::string::group_string_axioms;

/// Where the scanner stands after a token was asked for, and the token or
/// the reason why there is none.
pub struct Taken {
    pub state: LexerView,
    pub result: Result<TokenView, ParseErrorView>,
}

/// Where the scanner stands after something was parsed, and what was
/// recognised.
pub struct Parsed<T> {
    pub state: LexerView,
    pub result: Result<T, ParseErrorView>,
}

/// The next token; a failure of the scanner becomes a failure of the parser.
pub open spec fn next_token(s: LexerView) -> Taken {
    Taken {
        state: lex(s).state,
        result: match lex(s).result {
            Ok(t) => Ok(t),
            Err(e) => Err(ParseErrorView::LexerError(e)),
        },
    }
}

/// The next token, which must be of a category that `m` accepts; any other
/// token is reported by its text.
pub open spec fn expected_token(s: LexerView, m: TokenMatcher) -> Taken {
    let n = next_token(s);
    match n.result {
        Ok(t) => if m.spec_accepts(t.category) {
            n
        } else {
            Taken { state: n.state, result: Err(ParseErrorView::UnexpectedToken(t.value)) }
        },
        Err(_) => n,
    }
}

/// The literal that a token denotes: a string, `null`, a number, `true` or
/// `false`.
pub open spec fn literal_of(t: TokenView) -> Option<LiteralView> {
    if t.category == TokenType::STRING_LITERAL {
        Some(LiteralView::String(t.value))
    } else if t.category == TokenType::NULL_LITERAL {
        Some(LiteralView::Null)
    } else if spec_is_numeric_token(t.category) && t.number is Some {
        Some(LiteralView::Number(t.number->0))
    } else if t.category == TokenType::TRUE_LITERAL || t.category == TokenType::FALSE_LITERAL {
        Some(LiteralView::Boolean(t.value == "true"@))
    } else {
        None
    }
}

/// A literal expression: the next token must denote a literal.
pub open spec fn literal(s: LexerView) -> Parsed<ExpressionView> {
    let n = next_token(s);
    Parsed {
        state: n.state,
        result: match n.result {
            Ok(t) => match literal_of(t) {
                Some(l) => Ok(ExpressionView::Literal(l)),
                None => Err(ParseErrorView::UnexpectedToken(t.value)),
            },
            Err(e) => Err(e),
        },
    }
}

/// What follows `let`: an identifier, `=` and a literal, which give one
/// declared variable. Parsing stops at the first token that does not fit.
pub open spec fn declaration(s: LexerView) -> Parsed<Seq<VariableView>> {
    let name = expected_token(s, TokenMatcher::Single(TokenType::Identifier));
    match name.result {
        Err(e) => Parsed { state: name.state, result: Err(e) },
        Ok(ident) => {
            let assign = expected_token(name.state, TokenMatcher::Single(TokenType::ASSIGN));
            match assign.result {
                Err(e) => Parsed { state: assign.state, result: Err(e) },
                Ok(_) => {
                    let value = literal(assign.state);
                    Parsed {
                        state: value.state,
                        result: match value.result {
                            Ok(exp) => Ok(
                                seq![VariableView { name: ident.value, init: Some(exp) }],
                            ),
                            Err(e) => Err(e),
                        },
                    }
                },
            }
        },
    }
}

/// What parsing a program gives: the declaration behind a leading `let`,
/// and nothing where the text begins otherwise or cannot be scanned.
pub open spec fn program(s: LexerView) -> (LexerView, Option<
    Result<Seq<VariableView>, ParseErrorView>,
>) {
    match lex(s).result {
        Ok(t) => if t.category == TokenType::LET {
            (declaration(lex(s).state).state, Some(declaration(lex(s).state).result))
        } else {
            (lex(s).state, None)
        },
        Err(_) => (lex(s).state, None),
    }
}

/// View of the outcome of a request for a token.
pub open spec fn taken_view(r: Result<Token, ParseError>) -> Result<TokenView, ParseErrorView> {
    match r {
        Ok(t) => Ok(t@),
        Err(e) => Err(e@),
    }
}

/// View of a parsed expression.
pub open spec fn expression_result_view(r: Result<Expression, ParseError>) -> Result<
    ExpressionView,
    ParseErrorView,
> {
    match r {
        Ok(x) => Ok(x@),
        Err(e) => Err(e@),
    }
}

/// View of a parsed declaration.
pub open spec fn declaration_result_view(r: Result<VariableDeclaration, ParseError>) -> Result<
    Seq<VariableView>,
    ParseErrorView,
> {
    match r {
        Ok(x) => Ok(x@),
        Err(e) => Err(e@),
    }
}

/// View of what parsing a program gives.
pub open spec fn program_view(r: Option<Result<VariableDeclaration, ParseError>>) -> Option<
    Result<Seq<VariableView>, ParseErrorView>,
> {
    match r {
        Some(d) => Some(declaration_result_view(d)),
        None => None,
    }
}

/// A parser: the scanner it reads from and the scopes that are open.
pub struct Parser {
    scope_stack: Vec<Scope>,
    lexer: Lexer,
}

/// Mathematical counterpart of [`Parser`].
pub struct ParserView {
    pub scopes: Seq<ScopeView>,
    pub lexer: LexerView,
}

impl View for Parser {
    type V = ParserView;

    closed spec fn view(&self) -> ParserView {
        ParserView { scopes: self.scope_stack@.map_values(|s: Scope| s@), lexer: self.lexer@ }
    }
}

impl Parser {
    /// A parser that reads its tokens from `lexer`; no scope is open.
    pub fn new(lexer: Lexer) -> (r: Self)
        ensures
            r@ == (ParserView { scopes: Seq::empty(), lexer: lexer@ }),
    {
        let r = Self { scope_stack: vec![], lexer: lexer };
        assert(r@.scopes =~= Seq::<ScopeView>::empty());
        r
    }

    /// Asks the scanner for the next token.
    fn next(&mut self) -> (r: Result<Token, ParseError>)
        ensures
            final(self)@.scopes == old(self)@.scopes,
            final(self)@.lexer == next_token(old(self)@.lexer).state,
            taken_view(r) == next_token(old(self)@.lexer).result,
    {
        match self.lexer.advance() {
            Ok(t) => Ok(t),
            Err(e) => Err(ParseError::LexerError(e)),
        }
    }

    /// Asks the scanner for the next token, which must be of a category
    /// that `tp` accepts.
    fn next_check(&mut self, tp: TokenMatcher) -> (r: Result<Token, ParseError>)
        ensures
            final(self)@.scopes == old(self)@.scopes,
            final(self)@.lexer == expected_token(old(self)@.lexer, tp).state,
            taken_view(r) == expected_token(old(self)@.lexer, tp).result,
    {
        let n = match self.next() {
            Ok(n) => n,
            Err(e) => {
                return Err(e);
            },
        };
        if tp.accepts(n.category) {
            return Ok(n);
        }
        Err(ParseError::UnexpectedToken(n.value))
    }

    /// Parses the start of a program. Gives the declaration that follows a
    /// leading `let`, or the reason why there is none; gives nothing where
    /// the program begins with another token or cannot be scanned.
    pub fn parse(&mut self) -> (r: Option<Result<VariableDeclaration, ParseError>>)
        ensures
            final(self)@.scopes == old(self)@.scopes,
            final(self)@.lexer == program(old(self)@.lexer).0,
            program_view(r) == program(old(self)@.lexer).1,
    {
        let nt = self.lexer.advance();
        match nt {
            Ok(tt) => {
                match tt.category {
                    TokenType::LET => Some(self.parse_decl()),
                    _ => None,
                }
            },
            Err(_) => None,
        }
    }

    /// Parses what follows `let`: an identifier, `=` and a literal.
    fn parse_decl(&mut self) -> (r: Result<VariableDeclaration, ParseError>)
        ensures
            final(self)@.scopes == old(self)@.scopes,
            final(self)@.lexer == declaration(old(self)@.lexer).state,
            declaration_result_view(r) == declaration(old(self)@.lexer).result,
    {
        let ident = match self.next_check(TokenMatcher::Single(TokenType::Identifier)) {
            Ok(t) => t,
            Err(e) => {
                return Err(e);
            },
        };
        match self.next_check(TokenMatcher::Single(TokenType::ASSIGN)) {
            Ok(_) => {},
            Err(e) => {
                return Err(e);
            },
        }
        let exp = match self.parse_literal() {
            Ok(exp) => exp,
            Err(e) => {
                return Err(e);
            },
        };
        let ghost name = ident.value@;
        let ghost init = exp@;
        let mut decls: Vec<Variable> = Vec::new();
        decls.push(Variable::new(ident.value, Some(exp)));
        let r = VariableDeclaration { list: decls };
        assert(r@ =~= seq![VariableView { name: name, init: Some(init) }]);
        Ok(r)
    }

    /// Parses a literal expression.
    fn parse_literal(&mut self) -> (r: Result<Expression, ParseError>)
        ensures
            final(self)@.scopes == old(self)@.scopes,
            final(self)@.lexer == literal(old(self)@.lexer).state,
            expression_result_view(r) == literal(old(self)@.lexer).result,
    {
        let n = match self.next() {
            Ok(n) => n,
            Err(e) => {
                return Err(e);
            },
        };
        match n.category {
            TokenType::STRING_LITERAL => {
                let lt = Literal::from(n.value);
                Ok(Expression::from(lt))
            },
            TokenType::NULL_LITERAL => Ok(Expression::from(Literal::Null)),
            TokenType::TRUE_LITERAL | TokenType::FALSE_LITERAL => {
                Ok(Expression::from(Literal::from(str_eq(n.value.as_str(), "true"))))
            },
            _ => {
                if is_numeric_token(n.category) {
                    if let Some(v) = n.number {
                        return Ok(Expression::from(Literal::from(v)));
                    }
                }
                Err(ParseError::UnexpectedToken(n.value))
            },
        }
    }
}

} // verus!
