use js_lexer::input::{is_line_break, Code};
use js_lexer::lexer::error::LexerError;
use js_lexer::lexer::token::{
    continues_identifier, digit_to_char, get_punctuator_type, hex_char_to_digit, is_alphabetic,
    is_blank, is_hex_digit, is_identifier_continue, is_identifier_start, is_line_terminator,
    is_numeric, is_numeric_token, is_punctuator, is_string_literal_start, is_unicode_seq_start,
    is_whitespace, match_found, starts_identifier, str_eq, try_keyword, NumericValue, TokenType,
};
use js_lexer::lexer::util::{
    parse_binary_number, parse_decimal_int, parse_decimal_number, parse_hex_number, parse_numeric,
    parse_octal_number,
};

fn num(digits: u64, radix: u32, scale: usize) -> NumericValue {
    NumericValue { digits, radix, scale, dropped: 0 }
}

fn cut(digits: u64, radix: u32, dropped: usize) -> NumericValue {
    NumericValue { digits, radix, scale: 0, dropped }
}

#[test]
fn cursor_counts_lines_and_columns() {
    let mut c = Code::new("a\nbc\r\u{2028}d");
    assert_eq!((c.line_cursor(), c.column_cursor(), c.column_start()), (1, 1, 1));
    assert_eq!(c.peek(), Some('a'));
    assert_eq!(c.peek(), Some('a'));
    assert_eq!(c.next(), Some('a'));
    assert_eq!((c.line_cursor(), c.column_cursor()), (1, 2));
    assert_eq!(c.next(), Some('\n'));
    assert_eq!((c.line_cursor(), c.column_cursor()), (2, 1));
    assert_eq!(c.next(), Some('b'));
    c.set_column_start();
    assert_eq!(c.column_start(), 2);
    assert_eq!(c.next(), Some('c'));
    assert_eq!((c.line_cursor(), c.column_cursor()), (2, 3));
    assert_eq!(c.next(), Some('\r'));
    assert_eq!((c.line_cursor(), c.column_cursor()), (3, 1));
    assert_eq!(c.next(), Some('\u{2028}'));
    assert_eq!((c.line_cursor(), c.column_cursor()), (4, 1));
    assert_eq!(c.next(), Some('d'));
    assert_eq!((c.line_cursor(), c.column_cursor()), (4, 2));
    assert_eq!(c.peek(), None);
    assert_eq!(c.next(), None);
    assert_eq!(c.next(), None);
    assert_eq!((c.line_cursor(), c.column_cursor(), c.column_start()), (4, 2, 2));
}

#[test]
fn cursor_over_text_beyond_ascii() {
    let mut c = Code::try_new("\u{e9}\u{1F600}").unwrap();
    assert_eq!(c.next(), Some('\u{e9}'));
    assert_eq!(c.next(), Some('\u{1F600}'));
    assert_eq!(c.column_cursor(), 3);
    assert_eq!(c.next(), None);
}

#[test]
fn line_breaks() {
    for c in ['\n', '\r', '\u{2028}', '\u{2029}'] {
        assert!(is_line_break(c));
    }
    for c in [' ', '\t', 'a', '\u{85}', '\u{b}'] {
        assert!(!is_line_break(c));
    }
}

#[test]
fn white_space_and_line_terminators() {
    for c in ['\t', ' ', '\u{a0}', '\u{c}'] {
        assert!(is_whitespace(c));
        assert!(!is_line_terminator(c));
        assert!(is_blank(c));
    }
    for c in ['\n', '\r', '\u{2028}', '\u{2029}'] {
        assert!(!is_whitespace(c));
        assert!(is_line_terminator(c));
        assert!(is_blank(c));
    }
    for c in ['a', '0', '\u{b}', '\u{feff}', '\u{2003}', '\u{85}'] {
        assert!(!is_whitespace(c));
        assert!(!is_line_terminator(c));
        assert!(!is_blank(c));
    }
}

#[test]
fn hexadecimal_digits() {
    for c in ['0', '9', 'a', 'f', 'A', 'F'] {
        assert!(is_hex_digit(c));
    }
    for c in ['g', 'G', '/', ':', '@', '`', ' ', '\u{ff11}'] {
        assert!(!is_hex_digit(c));
    }
}

#[test]
fn identifier_characters() {
    for c in ['a', 'Z', '_', '$', '\u{e9}', '\u{4e2d}'] {
        assert!(is_identifier_start(c));
        assert!(is_identifier_continue(c));
    }
    for c in ['0', '9', '\u{200c}', '\u{200d}', '\u{301}'] {
        assert!(!is_identifier_start(c));
        assert!(is_identifier_continue(c));
    }
    for c in [' ', '-', '\\', '\u{a0}', '\u{25b3}', '\u{2028}', '\u{7f}'] {
        assert!(!is_identifier_start(c));
        assert!(!is_identifier_continue(c));
    }
}

#[test]
fn identifier_characters_given_the_property() {
    assert!(starts_identifier('a', false));
    assert!(starts_identifier('$', false));
    assert!(!starts_identifier('1', true));
    assert!(!starts_identifier(' ', true));
    assert!(starts_identifier('\u{e9}', true));
    assert!(!starts_identifier('\u{e9}', false));
    assert!(!starts_identifier('\u{200d}', false));
    assert!(continues_identifier('1', false));
    assert!(continues_identifier('_', false));
    assert!(!continues_identifier('-', true));
    assert!(continues_identifier('\u{e9}', true));
    assert!(!continues_identifier('\u{e9}', false));
    assert!(continues_identifier('\u{200c}', false));
    assert!(continues_identifier('\u{200d}', false));
}

#[test]
fn simple_character_classes() {
    assert!(is_string_literal_start('\''));
    assert!(is_string_literal_start('"'));
    assert!(!is_string_literal_start('`'));
    assert!(is_unicode_seq_start('\\'));
    assert!(!is_unicode_seq_start('/'));
    assert!(is_alphabetic('a'));
    assert!(is_alphabetic('\u{e9}'));
    assert!(!is_alphabetic('1'));
    assert!(!is_alphabetic(' '));
}

#[test]
fn numeric_categories() {
    assert!(is_numeric_token(TokenType::NUMERIC_LITERAL_BINARY));
    assert!(is_numeric_token(TokenType::NUMERIC_LITERAL_OCTAL));
    assert!(is_numeric_token(TokenType::NUMERIC_LITERAL_DECIMAL));
    assert!(is_numeric_token(TokenType::NUMERIC_LITERAL_HEX));
    assert!(!is_numeric_token(TokenType::NUMERIC_LITERAL));
    assert!(!is_numeric_token(TokenType::STRING_LITERAL));
    assert!(!is_numeric_token(TokenType::Identifier));
}

#[test]
fn search_with_the_digit_pattern() {
    assert!(is_numeric("7"));
    assert!(is_numeric("abc1"));
    assert!(!is_numeric("abc"));
    assert!(!is_numeric(""));
}

#[test]
fn search_with_the_punctuator_pattern() {
    assert!(is_punctuator("+"));
    assert!(is_punctuator("a-b"));
    assert!(is_punctuator("x = 1"));
    assert!(!is_punctuator("ab"));
    assert!(!is_punctuator("("));
}

#[test]
fn outcome_of_a_search() {
    assert!(match_found(Some(true)));
    assert!(!match_found(Some(false)));
    assert!(!match_found(None));
}

#[test]
fn punctuator_types() {
    assert_eq!(get_punctuator_type("+"), TokenType::ADD);
    assert_eq!(get_punctuator_type("-"), TokenType::SUB);
    assert_eq!(get_punctuator_type("="), TokenType::ASSIGN);
    assert_eq!(get_punctuator_type("("), TokenType::LPAREN);
    assert_eq!(get_punctuator_type(")"), TokenType::RPAREN);
    assert_eq!(get_punctuator_type("["), TokenType::UNHANDLED);
    assert_eq!(get_punctuator_type("++"), TokenType::UNHANDLED);
    assert_eq!(get_punctuator_type(""), TokenType::UNHANDLED);
}

#[test]
fn string_equality() {
    assert!(str_eq("", ""));
    assert!(str_eq("let", "let"));
    assert!(!str_eq("let", "lex"));
    assert!(!str_eq("let", "le"));
    assert!(str_eq("\u{e9}", "\u{e9}"));
    assert!(!str_eq("\u{e9}", "\u{e8}"));
}

#[test]
fn keywords() {
    assert_eq!(try_keyword("while"), TokenType::WHILE);
    assert_eq!(try_keyword("in"), TokenType::IN);
    assert_eq!(try_keyword("instanceof"), TokenType::INSTANCEOF);
    assert_eq!(try_keyword("While"), TokenType::Identifier);
    assert_eq!(try_keyword("int"), TokenType::Identifier);
    assert_eq!(try_keyword(""), TokenType::Identifier);
}

#[test]
fn hex_digits() {
    assert_eq!(hex_char_to_digit('0').unwrap(), 0);
    assert_eq!(hex_char_to_digit('9').unwrap(), 9);
    assert_eq!(hex_char_to_digit('a').unwrap(), 10);
    assert_eq!(hex_char_to_digit('f').unwrap(), 15);
    assert_eq!(hex_char_to_digit('A').unwrap(), 10);
    assert_eq!(hex_char_to_digit('F').unwrap(), 15);
    assert!(matches!(hex_char_to_digit('g'), Err(LexerError::InvalidHexNumber)));
    assert!(matches!(hex_char_to_digit('/'), Err(LexerError::InvalidHexNumber)));
    assert!(matches!(hex_char_to_digit('\u{ff10}'), Err(LexerError::InvalidHexNumber)));
}

#[test]
fn code_points() {
    assert_eq!(digit_to_char(0x41).unwrap(), 'A');
    assert_eq!(digit_to_char(0).unwrap(), '\u{0}');
    assert_eq!(digit_to_char(0xD7FF).unwrap(), '\u{D7FF}');
    assert_eq!(digit_to_char(0xE000).unwrap(), '\u{E000}');
    assert_eq!(digit_to_char(0x10FFFF).unwrap(), '\u{10FFFF}');
    assert!(matches!(digit_to_char(0xD800), Err(LexerError::UnicodeSurrogateCodePoint)));
    assert!(matches!(digit_to_char(0xDFFF), Err(LexerError::UnicodeSurrogateCodePoint)));
    assert!(matches!(digit_to_char(0x110000), Err(LexerError::UnicodeOverfow)));
    assert!(matches!(digit_to_char(u32::MAX), Err(LexerError::UnicodeOverfow)));
}

#[test]
fn parse_in_each_radix() {
    assert_eq!(parse_binary_number("1011"), Ok(num(11, 2, 0)));
    assert_eq!(parse_octal_number("71"), Ok(num(57, 8, 0)));
    assert_eq!(parse_decimal_int("0091"), Ok(num(91, 10, 0)));
    assert_eq!(parse_hex_number("1F"), Ok(num(31, 16, 0)));
    assert_eq!(parse_hex_number("1f0"), Ok(num(496, 16, 0)));
    assert_eq!(parse_hex_number("AbC"), Ok(num(0xabc, 16, 0)));
    assert_eq!(parse_hex_number(""), Ok(num(0, 16, 0)));
    assert_eq!(parse_binary_number(""), Ok(num(0, 2, 0)));
    assert_eq!(parse_binary_number("12"), Err("invalid number".to_string()));
    assert_eq!(parse_octal_number("8"), Err("invalid number".to_string()));
    assert_eq!(parse_decimal_int("1a"), Err("invalid number".to_string()));
    assert_eq!(parse_decimal_int("1.5"), Err("invalid number".to_string()));
    assert_eq!(parse_hex_number("g"), Err("invalid number".to_string()));
    assert_eq!(parse_hex_number("\u{e9}"), Err("invalid number".to_string()));
    assert_eq!(parse_decimal_int("١"), Err("invalid number".to_string()));
}

#[test]
fn parse_at_the_limit() {
    assert_eq!(parse_decimal_int("18446744073709551615"), Ok(num(u64::MAX, 10, 0)));
    assert_eq!(parse_hex_number("ffffffffffffffff"), Ok(num(u64::MAX, 16, 0)));
    assert_eq!(parse_decimal_int("000000000000000000000000000001"), Ok(num(1, 10, 0)));
    let ones = "1".repeat(64);
    assert_eq!(parse_binary_number(&ones), Ok(num(u64::MAX, 2, 0)));
    assert_eq!(parse_octal_number("1777777777777777777777"), Ok(num(u64::MAX, 8, 0)));
}

#[test]
fn parse_beyond_the_limit_keeps_the_leading_digits() {
    assert_eq!(parse_decimal_int("18446744073709551616"), Ok(cut(1844674407370955161, 10, 1)));
    assert_eq!(parse_decimal_int("99999999999999999999"), Ok(cut(9999999999999999999, 10, 1)));
    assert_eq!(
        parse_decimal_int("123456789012345678901234567890"),
        Ok(cut(12345678901234567890, 10, 10))
    );
    assert_eq!(parse_hex_number("10000000000000000"), Ok(cut(0x1000000000000000, 16, 1)));
    assert_eq!(parse_hex_number("fffffffffffffffff"), Ok(cut(u64::MAX, 16, 1)));
    assert_eq!(parse_hex_number("123456789abcdef012345"), Ok(cut(0x123456789abcdef0, 16, 5)));
    assert_eq!(parse_octal_number("2000000000000000000000"), Ok(cut(1 << 61, 8, 1)));
    let ones = "1".repeat(70);
    assert_eq!(parse_binary_number(&ones), Ok(cut(u64::MAX, 2, 6)));
    let long = "7".repeat(1000);
    assert_eq!(parse_octal_number(&long).unwrap().dropped, 979);
    assert_eq!(parse_decimal_int("18446744073709551616x"), Err("invalid number".to_string()));
    assert_eq!(parse_hex_number("10000000000000000g"), Err("invalid number".to_string()));
}

#[test]
fn parse_decimal_with_point() {
    assert_eq!(parse_decimal_number("123.45"), Ok(num(12345, 10, 2)));
    assert_eq!(parse_decimal_number("12"), Ok(num(12, 10, 0)));
    assert_eq!(parse_decimal_number("12."), Ok(num(12, 10, 0)));
    assert_eq!(parse_decimal_number(".5"), Ok(num(5, 10, 1)));
    assert_eq!(parse_decimal_number("0.001"), Ok(num(1, 10, 3)));
    assert_eq!(parse_decimal_number(""), Ok(num(0, 10, 0)));
    assert_eq!(parse_decimal_number("1.2.3"), Err("invalid number".to_string()));
    assert_eq!(parse_decimal_number("1,5"), Err("invalid number".to_string()));
    assert_eq!(parse_decimal_number("18446744073709551616.5"), Ok(cut(1844674407370955161, 10, 1)));
    assert_eq!(parse_decimal_number("18446744073709551616."), Ok(cut(1844674407370955161, 10, 1)));
    assert_eq!(parse_decimal_number("18446744073709551616.x"), Err("invalid number".to_string()));
    assert_eq!(
        parse_decimal_number("1844674407370955161.5"),
        Ok(num(u64::MAX, 10, 1))
    );
}

#[test]
fn parse_decimal_drops_fraction_digits_that_do_not_fit() {
    assert_eq!(
        parse_decimal_number("1844674407370955161.6"),
        Ok(num(1844674407370955161, 10, 0))
    );
    assert_eq!(
        parse_decimal_number("1844674407370955161.59"),
        Ok(num(u64::MAX, 10, 1))
    );
    assert_eq!(
        parse_decimal_number("3.14159265358979323846"),
        Ok(num(3141592653589793238, 10, 18))
    );
    assert_eq!(
        parse_decimal_number("18446744073709551615.999"),
        Ok(num(u64::MAX, 10, 0))
    );
    assert_eq!(
        parse_decimal_number("0.00000000000000000000000000001"),
        Ok(num(1, 10, 29))
    );
    assert_eq!(
        parse_decimal_number("1.00000000000000000000000000001"),
        Ok(num(10000000000000000000, 10, 19))
    );
    assert_eq!(
        parse_decimal_number("3.1415926535897932384x"),
        Err("invalid number".to_string())
    );
    assert_eq!(
        parse_decimal_number("3.14159265358979323846.1"),
        Err("invalid number".to_string())
    );
}

#[test]
fn parse_by_category() {
    assert_eq!(
        parse_numeric("101", &TokenType::NUMERIC_LITERAL_BINARY),
        Ok(num(5, 2, 0))
    );
    assert_eq!(
        parse_numeric("101", &TokenType::NUMERIC_LITERAL_OCTAL),
        Ok(num(65, 8, 0))
    );
    assert_eq!(
        parse_numeric("101", &TokenType::NUMERIC_LITERAL_DECIMAL),
        Ok(num(101, 10, 0))
    );
    assert_eq!(
        parse_numeric("101", &TokenType::NUMERIC_LITERAL_HEX),
        Ok(num(257, 16, 0))
    );
    assert_eq!(
        parse_numeric("1.5", &TokenType::NUMERIC_LITERAL_DECIMAL),
        Ok(num(15, 10, 1))
    );
    assert_eq!(
        parse_numeric("101", &TokenType::NUMERIC_LITERAL),
        Err("invalid number".to_string())
    );
    assert_eq!(parse_numeric("101", &TokenType::Identifier), Err("invalid number".to_string()));
}
