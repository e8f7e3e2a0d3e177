use js_lexer::ast::expression::{Expression, Literal};
use js_lexer::ast::variable::{Variable, VariableDeclaration};
use js_lexer::lexer::error::LexerError;
use js_lexer::lexer::lexer::Lexer;
use js_lexer::lexer::token::{NumericValue, TokenMatcher, TokenType};
use js_lexer::parser::error::ParseError;
use js_lexer::parser::scope::Scope;
use js_lexer::parser::Parser;

fn num(digits: u64, radix: u32, scale: usize) -> NumericValue {
    NumericValue { digits, radix, scale, dropped: 0 }
}

fn parse(src: &str) -> Option<Result<VariableDeclaration, ParseError>> {
    Parser::new(Lexer::new(src)).parse()
}

fn declared(src: &str) -> VariableDeclaration {
    parse(src).unwrap().unwrap()
}

fn refused(src: &str) -> ParseError {
    parse(src).unwrap().unwrap_err()
}

#[test]
fn declaration_with_string() {
    let d = declared("let x = 'a b';");
    assert_eq!(d.list.len(), 1);
    assert_eq!(d.list[0].name(), "x");
    match d.list[0].init() {
        Some(Expression::Literal(Literal::String(s))) => assert_eq!(s.value, "a b"),
        other => panic!("unexpected initialiser {:?}", other),
    }
}

#[test]
fn declaration_with_number() {
    let d = declared("let total = 0x1F");
    assert_eq!(d.list[0].name(), "total");
    match d.list[0].init() {
        Some(Expression::Literal(Literal::Number(n))) => {
            assert_eq!(n.value, num(31, 16, 0))
        }
        other => panic!("unexpected initialiser {:?}", other),
    }
    let d = declared("let ratio = 2.50");
    match d.list[0].init() {
        Some(Expression::Literal(Literal::Number(n))) => {
            assert_eq!(n.value, num(250, 10, 2))
        }
        other => panic!("unexpected initialiser {:?}", other),
    }
}

#[test]
fn declaration_with_keyword_literal() {
    let d = declared("let a = true");
    assert!(matches!(
        d.list[0].init(),
        Some(Expression::Literal(Literal::Boolean(b))) if b.value
    ));
    let d = declared("let a = false");
    assert!(matches!(
        d.list[0].init(),
        Some(Expression::Literal(Literal::Boolean(b))) if !b.value
    ));
    let d = declared("let a = null");
    assert!(matches!(d.list[0].init(), Some(Expression::Literal(Literal::Null))));
}

#[test]
fn declaration_needs_an_identifier() {
    match refused("let 1 = 2") {
        ParseError::UnexpectedToken(s) => assert_eq!(s, "1"),
        e => panic!("unexpected error {:?}", e),
    }
    match refused("let let = 2") {
        ParseError::UnexpectedToken(s) => assert_eq!(s, "let"),
        e => panic!("unexpected error {:?}", e),
    }
}

#[test]
fn declaration_needs_an_assignment() {
    match refused("let x 5") {
        ParseError::UnexpectedToken(s) => assert_eq!(s, "5"),
        e => panic!("unexpected error {:?}", e),
    }
}

#[test]
fn declaration_needs_a_literal() {
    match refused("let x = y") {
        ParseError::UnexpectedToken(s) => assert_eq!(s, "y"),
        e => panic!("unexpected error {:?}", e),
    }
    match refused("let x = undefined") {
        ParseError::UnexpectedToken(s) => assert_eq!(s, "undefined"),
        e => panic!("unexpected error {:?}", e),
    }
    match refused("let x = ;") {
        ParseError::UnexpectedToken(s) => assert_eq!(s, ";"),
        e => panic!("unexpected error {:?}", e),
    }
}

#[test]
fn scanner_failure_inside_declaration() {
    assert!(matches!(refused("let x ="), ParseError::LexerError(LexerError::EOF)));
    assert!(matches!(refused("let"), ParseError::LexerError(LexerError::EOF)));
    assert!(matches!(refused("let x = 'abc"), ParseError::LexerError(LexerError::InvalidString)));
    assert!(matches!(
        refused("let x = 0b12"),
        ParseError::LexerError(LexerError::UnexpectedToken(_))
    ));
}

#[test]
fn program_without_leading_let() {
    assert!(parse("var x = 1").is_none());
    assert!(parse("x").is_none());
    assert!(parse("").is_none());
    assert!(parse("'abc").is_none());
}

#[test]
fn parser_goes_on_behind_a_declaration() {
    let mut p = Parser::new(Lexer::new("let a = 1; let b = 'two'"));
    let d = p.parse().unwrap().unwrap();
    assert_eq!(d.list[0].name(), "a");
    assert!(p.parse().is_none());
    let d = p.parse().unwrap().unwrap();
    assert_eq!(d.list[0].name(), "b");
    assert!(p.parse().is_none());
}

#[test]
fn scope_refuses_a_second_declaration() {
    let mut s = Scope::new();
    assert!(!s.is_declared("a"));
    assert!(s.declare("a").is_ok());
    assert!(s.is_declared("a"));
    assert!(s.declare("b").is_ok());
    match s.declare("a") {
        Err(ParseError::AlreadyDeclared(n)) => assert_eq!(n, "a"),
        other => panic!("unexpected outcome {:?}", other),
    }
    assert!(s.declare("ab").is_ok());
    assert!(s.is_declared("b"));
    assert!(!s.is_declared("c"));
    assert!(matches!(s.declare("ab"), Err(ParseError::AlreadyDeclared(_))));
}

#[test]
fn matcher_accepts_its_categories() {
    let one = TokenMatcher::from(TokenType::ASSIGN);
    assert!(one.accepts(TokenType::ASSIGN));
    assert!(!one.accepts(TokenType::ADD));
    let any = TokenMatcher::from(vec![TokenType::ADD, TokenType::SUB, TokenType::NOT]);
    assert!(any.accepts(TokenType::ADD));
    assert!(any.accepts(TokenType::NOT));
    assert!(!any.accepts(TokenType::ASSIGN));
    assert!(!TokenMatcher::from(vec![]).accepts(TokenType::ADD));
}

#[test]
fn literals_from_values() {
    assert!(matches!(Literal::from("s".to_string()), Literal::String(s) if s.value == "s"));
    assert!(matches!(Literal::from(true), Literal::Boolean(b) if b.value));
    assert!(matches!(
        Literal::from(num(15, 10, 1)),
        Literal::Number(n) if n.value.digits == 15 && n.value.scale == 1
    ));
    assert!(matches!(
        Expression::from(Literal::Undefined),
        Expression::Literal(Literal::Undefined)
    ));
}

#[test]
fn variable_keeps_name_and_initialiser() {
    let v = Variable::new("n".to_string(), None);
    assert_eq!(v.name(), "n");
    assert!(v.init().is_none());
    let v = Variable::new("m".to_string(), Some(Expression::from(Literal::Null)));
    assert_eq!(v.name(), "m");
    assert!(matches!(v.init(), Some(Expression::Literal(Literal::Null))));
}
