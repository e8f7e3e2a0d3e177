use js_lexer::lexer::error::LexerError;
use js_lexer::lexer::lexer::Lexer;
use js_lexer::lexer::token::{NumericValue, Token, TokenType};

fn num(digits: u64, radix: u32, scale: usize) -> NumericValue {
    NumericValue { digits, radix, scale, dropped: 0 }
}

fn cut(digits: u64, radix: u32, dropped: usize) -> NumericValue {
    NumericValue { digits, radix, scale: 0, dropped }
}

fn as_f64(n: NumericValue) -> f64 {
    let radix = n.radix as f64;
    n.digits as f64 * radix.powi(n.dropped as i32) / radix.powi(n.scale as i32)
}

fn first(src: &str) -> Token {
    Lexer::new(src).advance().unwrap()
}

fn first_err(src: &str) -> LexerError {
    Lexer::new(src).advance().unwrap_err()
}

#[test]
fn single_character_punctuators() {
    let cases = [
        ("=", TokenType::ASSIGN),
        (":", TokenType::COLON),
        ("[", TokenType::LBRACK),
        ("]", TokenType::RBRACK),
        ("(", TokenType::LPAREN),
        (")", TokenType::RPAREN),
        ("{", TokenType::LBRACE),
        ("}", TokenType::RBRACE),
        (",", TokenType::COMMA),
        (";", TokenType::SEMICOLON),
    ];
    for (src, cat) in cases {
        let mut lx = Lexer::new(src);
        let t = lx.advance().unwrap();
        assert_eq!(t.category, cat);
        assert_eq!(t.value, src);
        assert_eq!(t.number, None);
        assert_eq!(t.line, 1);
        assert_eq!(t.column, 1);
        assert!(matches!(lx.advance(), Err(LexerError::EOF)));
    }
}

#[test]
fn decimal_with_fraction() {
    let t = first("123.45");
    assert_eq!(t.category, TokenType::NUMERIC_LITERAL_DECIMAL);
    assert_eq!(t.value, "123.45");
    assert_eq!(t.number, Some(num(12345, 10, 2)));
    assert_eq!(as_f64(t.number.unwrap()), 123.45);
}

#[test]
fn hex_literal() {
    let t = first("0x1F");
    assert_eq!(t.category, TokenType::NUMERIC_LITERAL_HEX);
    assert_eq!(t.value, "1F");
    assert_eq!(as_f64(t.number.unwrap()), 31.0);
}

#[test]
fn hex_literal_with_separator() {
    let t = first("0X1f_0");
    assert_eq!(t.category, TokenType::NUMERIC_LITERAL_HEX);
    assert_eq!(t.value, "1f0");
    assert_eq!(t.number, Some(num(496, 16, 0)));
    assert_eq!(as_f64(t.number.unwrap()), 496.0);
}

#[test]
fn legacy_literal_with_high_digit_is_decimal() {
    let t = first("091");
    assert_eq!(t.category, TokenType::NUMERIC_LITERAL_DECIMAL);
    assert_eq!(as_f64(t.number.unwrap()), 91.0);
}

#[test]
fn legacy_literal_is_octal() {
    let t = first("071");
    assert_eq!(t.category, TokenType::NUMERIC_LITERAL_OCTAL);
    assert_eq!(t.value, "71");
    assert_eq!(as_f64(t.number.unwrap()), 57.0);
}

#[test]
fn hex_literal_followed_by_letter_fails() {
    match first_err("0x1g") {
        LexerError::UnexpectedToken(s) => assert_eq!(s, "g"),
        e => panic!("unexpected error {:?}", e),
    }
}

#[test]
fn string_with_four_digit_escape() {
    let t = first("\"\\u0041\"");
    assert_eq!(t.category, TokenType::STRING_LITERAL);
    assert_eq!(t.value, "A");
    assert_eq!(t.number, None);
}

#[test]
fn string_with_braced_escape() {
    let t = first("'\\u{1F600}'");
    assert_eq!(t.category, TokenType::STRING_LITERAL);
    assert_eq!(t.value, "\u{1F600}");
    assert_eq!(t.value.chars().count(), 1);
}

#[test]
fn string_with_braced_surrogate_fails() {
    assert!(matches!(first_err("'\\u{D800}'"), LexerError::UnicodeSurrogateCodePoint));
}

#[test]
fn string_with_four_digit_surrogate_fails() {
    assert!(matches!(first_err("'\\uD800'"), LexerError::UnicodeSurrogateCodePoint));
    assert!(matches!(first_err("'\\uDFFF'"), LexerError::UnicodeSurrogateCodePoint));
}

#[test]
fn string_with_code_point_overflow_fails() {
    assert!(matches!(first_err("'\\u{110000}'"), LexerError::UnicodeOverfow));
    assert!(matches!(first_err("'\\u{100000041}'"), LexerError::UnicodeOverfow));
    assert!(matches!(first_err("'\\u{FFFFFFFFFFFFFFFFFFFF}'"), LexerError::UnicodeOverfow));
    assert_eq!(first("'\\u{10FFFF}'").value, "\u{10FFFF}");
}

#[test]
fn identifier_from_escape() {
    let mut lx = Lexer::new("\\u0061bc");
    let t = lx.handle_identifier().unwrap();
    assert_eq!(t.category, TokenType::Identifier);
    assert_eq!(t.value, "abc");
}

#[test]
fn identifier_with_escape_inside() {
    let t = first("a\\u0062c d");
    assert_eq!(t.category, TokenType::Identifier);
    assert_eq!(t.value, "abc");
    let t = first("a\\u{62}c");
    assert_eq!(t.category, TokenType::Identifier);
    assert_eq!(t.value, "abc");
}

#[test]
fn identifier_escape_must_be_identifier_character() {
    assert!(matches!(first_err("a\\u0020"), LexerError::InvalidUnicodeSequence));
    assert!(matches!(first_err("a\\x41"), LexerError::InvalidUnicodeSequence));
    assert!(matches!(first_err("a\\"), LexerError::InvalidUnicodeSequence));
    assert!(matches!(first_err("a\\u"), LexerError::InvalidUnicodeSequence));
    assert!(matches!(first_err("a\\u00"), LexerError::InvalidUnicodeSequence));
    assert!(matches!(first_err("a\\u00g1"), LexerError::InvalidHexNumber));
    assert!(matches!(first_err("a\\u{62"), LexerError::InvalidUnicodeSequence));
}

#[test]
fn keyword_and_longer_identifier() {
    assert_eq!(first("function").category, TokenType::FUNCTION);
    let t = first("functionX");
    assert_eq!(t.category, TokenType::Identifier);
    assert_eq!(t.value, "functionX");
}

#[test]
fn every_keyword() {
    let cases = [
        ("break", TokenType::BREAK),
        ("switch", TokenType::SWITCH),
        ("case", TokenType::CASE),
        ("continue", TokenType::CONTINUE),
        ("for", TokenType::FOR),
        ("let", TokenType::LET),
        ("var", TokenType::VAR),
        ("function", TokenType::FUNCTION),
        ("this", TokenType::THIS),
        ("catch", TokenType::CATCH),
        ("try", TokenType::TRY),
        ("finally", TokenType::FINALLY),
        ("throw", TokenType::THROW),
        ("with", TokenType::WITH),
        ("while", TokenType::WHILE),
        ("do", TokenType::DO),
        ("if", TokenType::IF),
        ("else", TokenType::ELSE),
        ("return", TokenType::RETURN),
        ("default", TokenType::DEFAULT),
        ("delete", TokenType::DELETE),
        ("typeof", TokenType::TYPEOF),
        ("instanceof", TokenType::INSTANCEOF),
        ("new", TokenType::NEW),
        ("in", TokenType::IN),
        ("false", TokenType::FALSE_LITERAL),
        ("true", TokenType::TRUE_LITERAL),
        ("null", TokenType::NULL_LITERAL),
        ("undefined", TokenType::UNDEFINED_LITERAL),
    ];
    for (src, cat) in cases {
        let t = first(src);
        assert_eq!(t.category, cat);
        assert_eq!(t.value, src);
        assert_eq!(t.number, None);
    }
}

#[test]
fn token_after_line_break() {
    let mut lx = Lexer::new("a\nb");
    let a = lx.advance().unwrap();
    assert_eq!((a.line, a.column), (1, 1));
    let b = lx.advance().unwrap();
    assert_eq!(b.value, "b");
    assert_eq!((b.line, b.column), (2, 1));
}

#[test]
fn token_after_each_line_terminator() {
    for br in ["\n", "\r", "\u{2028}", "\u{2029}"] {
        let src = format!("ab{}  cd", br);
        let mut lx = Lexer::new(&src);
        let a = lx.advance().unwrap();
        assert_eq!((a.line, a.column), (1, 1));
        let c = lx.advance().unwrap();
        assert_eq!(c.value, "cd");
        assert_eq!((c.line, c.column), (2, 3));
    }
}

#[test]
fn column_is_that_of_the_first_character() {
    let mut lx = Lexer::new("  let  value = 0x10 ;");
    let cols: Vec<(String, u64)> = (0..5)
        .map(|_| {
            let t = lx.advance().unwrap();
            (t.value, t.column)
        })
        .collect();
    assert_eq!(
        cols,
        vec![
            ("let".to_string(), 3),
            ("value".to_string(), 8),
            ("=".to_string(), 14),
            ("10".to_string(), 16),
            (";".to_string(), 21),
        ]
    );
}

#[test]
fn end_of_input_is_stable() {
    let mut lx = Lexer::new("a");
    assert_eq!(lx.advance().unwrap().value, "a");
    for _ in 0..10 {
        assert!(matches!(lx.advance(), Err(LexerError::EOF)));
    }
}

#[test]
fn empty_and_blank_input() {
    assert!(matches!(first_err(""), LexerError::EOF));
    assert!(matches!(first_err(" \t\u{a0}\u{c}\n\r"), LexerError::EOF));
}

#[test]
fn unhandled_characters_are_passed_over() {
    let mut lx = Lexer::new("+ - . a ! b");
    assert_eq!(lx.advance().unwrap().value, "a");
    let b = lx.advance().unwrap();
    assert_eq!(b.value, "b");
    assert_eq!(b.column, 11);
    assert!(matches!(lx.advance(), Err(LexerError::EOF)));
    assert!(matches!(first_err("+-*/"), LexerError::EOF));
}

#[test]
fn backslash_between_lexemes_is_passed_over() {
    let t = first("\\u0061bc");
    assert_eq!(t.category, TokenType::Identifier);
    assert_eq!(t.value, "u0061bc");
    assert_eq!(t.column, 2);
}

#[test]
fn binary_and_octal_literals() {
    let t = first("0b101");
    assert_eq!(t.category, TokenType::NUMERIC_LITERAL_BINARY);
    assert_eq!(t.value, "101");
    assert_eq!(t.number, Some(num(5, 2, 0)));
    let t = first("0B1_1");
    assert_eq!(t.number, Some(num(3, 2, 0)));
    let t = first("0o17");
    assert_eq!(t.category, TokenType::NUMERIC_LITERAL_OCTAL);
    assert_eq!(t.number, Some(num(15, 8, 0)));
    let t = first("0O777");
    assert_eq!(t.number, Some(num(511, 8, 0)));
}

#[test]
fn bare_zero_is_decimal() {
    let mut lx = Lexer::new("0;");
    let t = lx.advance().unwrap();
    assert_eq!(t.category, TokenType::NUMERIC_LITERAL_DECIMAL);
    assert_eq!(t.value, "0");
    assert_eq!(t.number, Some(num(0, 10, 0)));
    assert_eq!(lx.advance().unwrap().category, TokenType::SEMICOLON);
    let t = first("0");
    assert_eq!(t.value, "0");
    assert_eq!((t.line, t.column), (1, 1));
}

#[test]
fn prefix_without_digits_has_value_zero() {
    let t = first("0x");
    assert_eq!(t.category, TokenType::NUMERIC_LITERAL_HEX);
    assert_eq!(t.value, "");
    assert_eq!(t.number, Some(num(0, 16, 0)));
}

#[test]
fn digit_of_wrong_radix_fails() {
    match first_err("0b12") {
        LexerError::UnexpectedToken(s) => assert_eq!(s, "2"),
        e => panic!("unexpected error {:?}", e),
    }
    match first_err("0o78") {
        LexerError::UnexpectedToken(s) => assert_eq!(s, "8"),
        e => panic!("unexpected error {:?}", e),
    }
    match first_err("12ab") {
        LexerError::UnexpectedToken(s) => assert_eq!(s, "a"),
        e => panic!("unexpected error {:?}", e),
    }
    match first_err("0_") {
        LexerError::UnexpectedToken(s) => assert_eq!(s, "_"),
        e => panic!("unexpected error {:?}", e),
    }
    match first_err("07\u{e9}") {
        LexerError::UnexpectedToken(s) => assert_eq!(s, "\u{e9}"),
        e => panic!("unexpected error {:?}", e),
    }
}

#[test]
fn second_decimal_point_fails() {
    match first_err("1.2.3") {
        LexerError::UnexpectedToken(s) => assert_eq!(s, " . "),
        e => panic!("unexpected error {:?}", e),
    }
}

#[test]
fn decimal_separators_and_trailing_point() {
    let t = first("1_000_000");
    assert_eq!(t.value, "1000000");
    assert_eq!(t.number, Some(num(1000000, 10, 0)));
    let t = first("7.");
    assert_eq!(t.value, "7.");
    assert_eq!(t.number, Some(num(7, 10, 0)));
    let t = first("1.50");
    assert_eq!(t.number, Some(num(150, 10, 2)));
    assert_eq!(as_f64(t.number.unwrap()), 1.5);
}

#[test]
fn literal_at_the_limit() {
    let t = first("18446744073709551615");
    assert_eq!(t.number, Some(num(u64::MAX, 10, 0)));
    assert_eq!(first("0xFFFFFFFFFFFFFFFF").number, Some(num(u64::MAX, 16, 0)));
}

#[test]
fn literal_that_does_not_fit_keeps_its_leading_digits() {
    let t = first("18446744073709551616;");
    assert_eq!(t.category, TokenType::NUMERIC_LITERAL_DECIMAL);
    assert_eq!(t.value, "18446744073709551616");
    assert_eq!(t.number, Some(cut(1844674407370955161, 10, 1)));
    assert_eq!(as_f64(t.number.unwrap()), 18446744073709551616.0);
    let t = first("0x10000000000000000");
    assert_eq!(t.category, TokenType::NUMERIC_LITERAL_HEX);
    assert_eq!(t.value, "10000000000000000");
    assert_eq!(t.number, Some(cut(0x1000000000000000, 16, 1)));
    assert_eq!(as_f64(t.number.unwrap()), 18446744073709551616.0);
    let t = first("0o2000000000000000000000");
    assert_eq!(t.number, Some(cut(1 << 61, 8, 1)));
    let ones = "1".repeat(65);
    let t = first(&format!("0b{}", ones));
    assert_eq!(t.category, TokenType::NUMERIC_LITERAL_BINARY);
    assert_eq!(t.number, Some(cut(u64::MAX, 2, 1)));
    let t = first("099999999999999999999");
    assert_eq!(t.category, TokenType::NUMERIC_LITERAL_DECIMAL);
    assert_eq!(t.value, "99999999999999999999");
    assert_eq!(t.number, Some(cut(9999999999999999999, 10, 1)));
    let t = first("07777777777777777777777");
    assert_eq!(t.category, TokenType::NUMERIC_LITERAL_OCTAL);
    assert_eq!(t.number, Some(cut((1 << 63) - 1, 8, 1)));
}

#[test]
fn very_long_literals_have_a_value() {
    let cases = [("", "9"), ("0", "9"), ("0", "7"), ("0x", "f"), ("0o", "7"), ("0b", "1")];
    for (prefix, digit) in cases {
        let src = format!("{}{} ", prefix, digit.repeat(500));
        let t = first(&src);
        let n = t.number.unwrap();
        assert_eq!(t.value.len(), 500);
        assert!(n.dropped > 0);
        assert_eq!(n.scale, 0);
    }
    let src = format!("1.{}", "3".repeat(500));
    let n = first(&src).number.unwrap();
    assert_eq!(n.dropped, 0);
    assert_eq!(n.scale, 19);
    assert_eq!(n.digits, 13333333333333333333);
}

#[test]
fn long_fraction_keeps_the_digits_that_fit() {
    let t = first("3.14159265358979323846;");
    assert_eq!(t.category, TokenType::NUMERIC_LITERAL_DECIMAL);
    assert_eq!(t.value, "3.14159265358979323846");
    assert_eq!(t.number, Some(num(3141592653589793238, 10, 18)));
    assert_eq!(as_f64(t.number.unwrap()), 3.141592653589793);
    let t = first("18446744073709551615.5");
    assert_eq!(t.number, Some(num(u64::MAX, 10, 0)));
    let t = first("18446744073709551616.5");
    assert_eq!(t.value, "18446744073709551616.5");
    assert_eq!(t.number, Some(cut(1844674407370955161, 10, 1)));
}

#[test]
fn failed_request_leaves_nothing_in_the_buffer() {
    let mut lx = Lexer::new("12ab");
    assert!(lx.advance().is_err());
    let t = lx.advance().unwrap();
    assert_eq!(t.value, "ab");
    assert_eq!(t.column, 3);
    let mut lx = Lexer::new("'ab\\u00zz' x");
    assert!(matches!(lx.advance(), Err(LexerError::InvalidHexNumber)));
    let t = lx.advance().unwrap();
    assert_eq!(t.value, "z");
}

#[test]
fn string_quotes() {
    let t = first("'it\"s'");
    assert_eq!(t.value, "it\"s");
    let t = first("\"it's\" x");
    assert_eq!(t.value, "it's");
    assert_eq!(t.column, 1);
    let t = first("''");
    assert_eq!(t.value, "");
    assert_eq!(t.category, TokenType::STRING_LITERAL);
}

#[test]
fn unterminated_string_fails() {
    assert!(matches!(first_err("'abc"), LexerError::InvalidString));
    assert!(matches!(first_err("\""), LexerError::InvalidString));
    assert!(matches!(first_err("'abc\\"), LexerError::InvalidString));
}

#[test]
fn raw_line_terminator_in_string_fails() {
    for br in ["\n", "\r", "\u{2028}", "\u{2029}"] {
        let src = format!("'ab{}c'", br);
        assert!(matches!(first_err(&src), LexerError::InvalidString));
    }
}

#[test]
fn control_escapes() {
    let t = first("'\\b\\t\\n\\v\\f\\r'");
    assert_eq!(t.value, "\u{8}\u{9}\u{a}\u{b}\u{c}\u{d}");
    let t = first("'a\\'b\\\"c\\\\d'");
    assert_eq!(t.value, "a'b\"c\\d");
}

#[test]
fn identity_escape() {
    let t = first("'\\q\\ \\z'");
    assert_eq!(t.value, "q z");
    let mut lx = Lexer::new("'a\\\nb' c");
    let t = lx.advance().unwrap();
    assert_eq!(t.value, "a\nb");
    assert_eq!((t.line, t.column), (2, 1));
    let c = lx.advance().unwrap();
    assert_eq!((c.line, c.column), (2, 4));
}

#[test]
fn hex_escape() {
    assert_eq!(first("'\\x41\\x7a'").value, "Az");
    assert_eq!(first("'\\xff'").value, "\u{ff}");
    assert!(matches!(first_err("'\\x4g'"), LexerError::InvalidHexNumber));
    assert!(matches!(first_err("'\\xg'"), LexerError::InvalidHexNumber));
    assert!(matches!(first_err("'\\x4"), LexerError::InvalidOctalSeq));
    assert!(matches!(first_err("'\\x"), LexerError::InvalidOctalSeq));
}

#[test]
fn legacy_octal_escape() {
    assert_eq!(first("'\\101'").value, "A");
    assert_eq!(first("'\\7'").value, "\u{7}");
    assert_eq!(first("'\\0'").value, "\u{0}");
    assert_eq!(first("'\\78'").value, "\u{7}8");
    assert_eq!(first("'\\377'").value, "\u{ff}");
    assert_eq!(first("'\\400'").value, " 0");
    assert_eq!(first("'\\1011'").value, "A1");
}

#[test]
fn unicode_escape_failures_in_string() {
    assert!(matches!(first_err("'\\u"), LexerError::InvalidUnicodeSequence));
    assert!(matches!(first_err("'\\u12"), LexerError::InvalidUnicodeSequence));
    assert!(matches!(first_err("'\\u12'"), LexerError::InvalidHexNumber));
    assert!(matches!(first_err("'\\u{41"), LexerError::InvalidUnicodeSequence));
}

#[test]
fn braced_escape_consumes_the_closing_brace() {
    assert_eq!(first("'\\u{41}b'").value, "Ab");
    assert_eq!(first("'\\u{0041}'").value, "A");
    assert_eq!(first("'\\u{0}'").value, "\u{0}");
    assert_eq!(first("'}\\u{7d}}'").value, "}}}");
}

#[test]
fn braced_escape_needs_its_closing_brace() {
    assert!(matches!(first_err("'\\u{41g}'"), LexerError::InvalidUnicodeSequence));
    assert!(matches!(first_err("'\\u{41'"), LexerError::InvalidUnicodeSequence));
    assert!(matches!(first_err("'\\u{41 }'"), LexerError::InvalidUnicodeSequence));
    assert!(matches!(first_err("\"\\u{41\"b\""), LexerError::InvalidUnicodeSequence));
    assert!(matches!(first_err("a\\u{62 c"), LexerError::InvalidUnicodeSequence));
    assert!(matches!(first_err("'\\u{D800'"), LexerError::UnicodeSurrogateCodePoint));
}

#[test]
fn braced_escape_needs_a_digit() {
    assert!(matches!(first_err("'\\u{}b'"), LexerError::InvalidUnicodeSequence));
    assert!(matches!(first_err("'\\u{g}'"), LexerError::InvalidUnicodeSequence));
    assert!(matches!(first_err("'\\u{"), LexerError::InvalidUnicodeSequence));
    assert!(matches!(first_err("a\\u{}"), LexerError::InvalidUnicodeSequence));
}

#[test]
fn refused_braced_escape_accumulates_nothing() {
    let mut lx = Lexer::new("u{41g}");
    assert!(matches!(lx.handle_string_seq(), Err(LexerError::InvalidUnicodeSequence)));
    assert_eq!(lx.set_token(TokenType::STRING_LITERAL).value, "");
    let t = lx.advance().unwrap();
    assert_eq!(t.value, "g");
    assert_eq!(t.column, 5);
    assert_eq!(lx.advance().unwrap().category, TokenType::RBRACE);
    let mut lx = Lexer::new("u{}");
    assert!(lx.handle_unicode_seq().is_err());
    assert_eq!(lx.advance().unwrap().category, TokenType::RBRACE);
}

#[test]
fn unicode_identifiers() {
    let t = first("\u{e9}t\u{e9} x");
    assert_eq!(t.category, TokenType::Identifier);
    assert_eq!(t.value, "\u{e9}t\u{e9}");
    let t = first("a\u{200c}b\u{200d}c");
    assert_eq!(t.value, "a\u{200c}b\u{200d}c");
    let t = first("$_a1");
    assert_eq!(t.value, "$_a1");
    let mut lx = Lexer::new("\u{25b3}a");
    let t = lx.advance().unwrap();
    assert_eq!(t.value, "a");
    assert_eq!(t.column, 2);
}

#[test]
fn statement() {
    let mut lx = Lexer::new("let x = 'a';\nreturn [1.5, y]");
    let mut got = Vec::new();
    loop {
        match lx.advance() {
            Ok(t) => got.push((t.category, t.value, t.line, t.column)),
            Err(LexerError::EOF) => break,
            Err(e) => panic!("unexpected error {:?}", e),
        }
    }
    let want = vec![
        (TokenType::LET, "let", 1, 1),
        (TokenType::Identifier, "x", 1, 5),
        (TokenType::ASSIGN, "=", 1, 7),
        (TokenType::STRING_LITERAL, "a", 1, 9),
        (TokenType::SEMICOLON, ";", 1, 12),
        (TokenType::RETURN, "return", 2, 1),
        (TokenType::LBRACK, "[", 2, 8),
        (TokenType::NUMERIC_LITERAL_DECIMAL, "1.5", 2, 9),
        (TokenType::COMMA, ",", 2, 12),
        (TokenType::Identifier, "y", 2, 14),
        (TokenType::RBRACK, "]", 2, 15),
    ];
    assert_eq!(got.len(), want.len());
    for (g, w) in got.iter().zip(want.iter()) {
        assert_eq!(g.0, w.0);
        assert_eq!(g.1, w.1);
        assert_eq!(g.2, w.2);
        assert_eq!(g.3, w.3);
    }
}

#[test]
fn numeric_value_only_on_numeric_tokens() {
    let mut lx = Lexer::new("a 'b' ; 12 0x1 0b1 0o1");
    for _ in 0..3 {
        assert_eq!(lx.advance().unwrap().number, None);
    }
    for _ in 0..4 {
        assert!(lx.advance().unwrap().number.is_some());
    }
}

#[test]
fn try_new_accepts_ordinary_text() {
    let mut lx = Lexer::try_new("a b").unwrap();
    assert_eq!(lx.advance().unwrap().value, "a");
    assert_eq!(lx.advance().unwrap().value, "b");
}

#[test]
fn public_scanning_steps() {
    let mut lx = Lexer::new("41}");
    assert_eq!(lx.try_code_point().unwrap(), 'A');
    let mut lx = Lexer::new("0041");
    assert_eq!(lx.try_four_hex_num().unwrap(), 'A');
    let mut lx = Lexer::new("u0041");
    assert_eq!(lx.handle_unicode_seq().unwrap(), 'A');
    let mut lx = Lexer::new("u{1F600}x");
    assert_eq!(lx.handle_unicode_seq().unwrap(), '\u{1F600}');
    let mut lx = Lexer::new("n");
    lx.accept('a');
    lx.handle_string_seq().unwrap();
    let t = lx.set_token(TokenType::STRING_LITERAL);
    assert_eq!(t.value, "a\n");
    let mut lx = Lexer::new("bc' d");
    lx.accept('a');
    let t = lx.string_literal('\'').unwrap();
    assert_eq!(t.value, "abc");
    let mut lx = Lexer::new("");
    lx.accept('i');
    lx.accept('f');
    assert_eq!(lx.token_finishup().category, TokenType::IF);
    let mut lx = Lexer::new("");
    lx.accept('1');
    lx.accept('0');
    let t = lx.set_token(TokenType::NUMERIC_LITERAL_BINARY);
    assert_eq!(t.number, Some(num(2, 2, 0)));
    assert_eq!(t.value, "10");
    lx.accept('z');
    let t = lx.set_token(TokenType::NUMERIC_LITERAL_HEX);
    assert_eq!(t.number, None);
    assert_eq!(t.value, "z");
}

#[test]
fn set_token_gives_a_value_to_every_valid_text() {
    let mut lx = Lexer::new("");
    lx.accept('1');
    for _ in 0..16 {
        lx.accept('0');
    }
    let t = lx.set_token(TokenType::NUMERIC_LITERAL_HEX);
    assert_eq!(t.value, "10000000000000000");
    assert_eq!(t.number, Some(cut(0x1000000000000000, 16, 1)));
    for _ in 0..20 {
        lx.accept('9');
    }
    let t = lx.set_token(TokenType::NUMERIC_LITERAL_DECIMAL);
    assert_eq!(t.number, Some(cut(9999999999999999999, 10, 1)));
    for _ in 0..20 {
        lx.accept('9');
    }
    assert_eq!(lx.set_token(TokenType::NUMERIC_LITERAL_OCTAL).number, None);
    for _ in 0..20 {
        lx.accept('9');
    }
    assert_eq!(lx.set_token(TokenType::Identifier).number, None);
    assert_eq!(lx.set_token(TokenType::NUMERIC_LITERAL_BINARY).number, Some(num(0, 2, 0)));
}
