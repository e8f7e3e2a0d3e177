//! The scanner. Each of its functions is proved to do what the rule of
//! the same purpose in [`crate::lexer::grammar`] says.

use crate::input::{is_line_break, Code};
use crate::lexer::error::LexerError;
use crate::lexer::grammar::{
    accept_escape, code_point, decimal_digits, decimal_literal, digit_run, finish, finish_number,
    finish_scanned, finish_word, fixed_hex, four_hex, hex_escape, hex_run, identifier_body,
    legacy_literal, lemma_escape_shrinks, lemma_unicode_escape_shrinks, lex, number_error,
    octal_continues, octal_escape, punctuator_category, radix_digits, run_has_high_digit,
    skip_blank, stray_point, string_body, token_result_view, trailing_check, unicode_digits,
    unicode_escape, word_from, zero_literal, Counted, LexerView,
};
use crate::lexer::token::{
    digit_to_char, hex_char_to_digit, hex_digit_value, is_blank, is_hex_digit,
    is_identifier_continue,
    is_identifier_start, is_string_literal_start, result_view, spec_is_hex_digit, try_keyword,
    Token, TokenType,
};
use crate::lexer::util::{is_radix_digit, parse_numeric};
use vstd::prelude::*;

verus! {

broadcast use vstd::string::group_string_axioms;

/// Calls `String::push`, which appends the character to the end of the
/// string.
#[verifier::external_body]
fn string_push(s: &mut String, c: char)
    ensures
        final(s)@ == old(s)@.push(c),
{
    s.push(c)
}

/// The text that consists of the one character `c`.
fn char_text(c: char) -> (r: String)
    ensures
        r@ == seq![c],
{
    let mut s = String::new();
    string_push(&mut s, c);
    assert(s@ =~= seq![c]);
    s
}

/// The category of a punctuator of one character.
fn punctuator_type(ch: char) -> (r: Option<TokenType>)
    ensures
        r == punctuator_category(ch),
{
    if ch == '=' {
        Some(TokenType::ASSIGN)
    } else if ch == ':' {
        Some(TokenType::COLON)
    } else if ch == '[' {
        Some(TokenType::LBRACK)
    } else if ch == ']' {
        Some(TokenType::RBRACK)
    } else if ch == '(' {
        Some(TokenType::LPAREN)
    } else if ch == ')' {
        Some(TokenType::RPAREN)
    } else if ch == '{' {
        Some(TokenType::LBRACE)
    } else if ch == '}' {
        Some(TokenType::RBRACE)
    } else if ch == ',' {
        Some(TokenType::COMMA)
    } else if ch == ';' {
        Some(TokenType::SEMICOLON)
    } else {
        None
    }
}

/// Whether `c` is a digit of the given radix.
fn is_digit_in(c: char, radix: u32) -> (r: bool)
    ensures
        r == is_radix_digit(c, radix as nat),
{
    match hex_char_to_digit(c) {
        Ok(d) => d < radix,
        Err(_) => false,
    }
}

/// The failure reported for a numeric lexeme without a numeric value.
fn number_failure(tp: TokenType) -> (r: LexerError)
    ensures
        r@ == number_error(tp),
{
    match tp {
        TokenType::NUMERIC_LITERAL_BINARY => LexerError::InvalidBinaryNumber,
        TokenType::NUMERIC_LITERAL_OCTAL => LexerError::InvalidOctalNumber,
        TokenType::NUMERIC_LITERAL_HEX => LexerError::InvalidHexNumber,
        _ => LexerError::InvalidNumberSeq,
    }
}

/// The scanner: it owns the cursor over the source text and the buffer in
/// which the text of the current lexeme is accumulated.
pub struct Lexer {
    code: Code,
    cache: String,
}

impl View for Lexer {
    type V = LexerView;

    closed spec fn view(&self) -> LexerView {
        LexerView { code: self.code@, cache: self.cache@ }
    }
}

impl Lexer {
    /// A scanner at the start of `code`. The text must be short enough for
    /// its lines and columns to be counted in 64 bits.
    pub fn new(code: &str) -> (r: Self)
        requires
            code@.len() < u64::MAX,
        ensures
            r@ == LexerView::start(code@),
    {
        Self { code: Code::new(code), cache: String::new() }
    }

    /// A scanner at the start of `code`, or `None` where the text is too
    /// long for its lines and columns to be counted in 64 bits.
    pub fn try_new(code: &str) -> (r: Option<Self>)
        ensures
            code@.len() < u64::MAX ==> r is Some && r->0@ == LexerView::start(code@),
            code@.len() >= u64::MAX ==> r is None,
    {
        match Code::try_new(code) {
            Some(code) => Some(Self { code, cache: String::new() }),
            None => None,
        }
    }

    /// Scans the next token.
    pub fn advance(&mut self) -> (r: Result<Token, LexerError>)
        ensures
            final(self)@ == lex(old(self)@).state,
            token_result_view(r) == lex(old(self)@).result,
    {
        self.cache = String::new();
        loop
            invariant
                self@.cache == Seq::<char>::empty(),
                skip_blank(self@.code) == skip_blank(old(self)@.code),
            decreases self@.code.rest.len(),
        {
            let ch = match self.code.peek() {
                Some(ch) => ch,
                None => {
                    return Err(LexerError::EOF);
                },
            };
            if is_blank(ch) {
                self.code.next();
                continue ;
            }
            let punct = punctuator_type(ch);
            let r = if let Some(tp) = punct {
                Ok(self.set_one_char_token(ch, tp))
            } else if is_string_literal_start(ch) {
                self.set_column_start();
                self.code.next();
                self.string_literal(ch)
            } else if is_identifier_start(ch) {
                self.set_column_start();
                self.code.next();
                self.accept(ch);
                self.handle_identifier()
            } else if ch == '0' {
                self.set_column_start();
                self.handle_number_start_with_zero()
            } else if '1' <= ch && ch <= '9' {
                self.set_column_start();
                self.handle_decimal_numeric(false)
            } else {
                self.code.next();
                continue ;
            };
            return match r {
                Ok(t) => Ok(t),
                Err(e) => {
                    self.cache = String::new();
                    Err(e)
                },
            };
        }
    }

    /// Records the current column as the start of a lexeme.
    fn set_column_start(&mut self)
        ensures
            final(self)@ == old(self)@.mark(),
    {
        self.code.set_column_start();
    }

    /// Consumes the character `ch` at the cursor and hands it out as a
    /// token of category `tp`.
    fn set_one_char_token(&mut self, ch: char, tp: TokenType) -> (r: Token)
        ensures
            final(self)@ == finish(old(self)@.mark().step().accept(ch), tp).state,
            r@ == finish(old(self)@.mark().step().accept(ch), tp).token,
    {
        self.set_column_start();
        self.code.next();
        self.accept(ch);
        self.set_token(tp)
    }

    /// Hands out the accumulated text as a token of category `tp`.
    pub fn set_token(&mut self, tp: TokenType) -> (r: Token)
        ensures
            final(self)@ == finish(old(self)@, tp).state,
            r@ == finish(old(self)@, tp).token,
    {
        let mut v = String::new();
        std::mem::swap(&mut v, &mut self.cache);
        let num = match parse_numeric(v.as_str(), &tp) {
            Ok(n) => Some(n),
            Err(_) => None,
        };
        Token {
            value: v,
            category: tp,
            line: self.code.line_cursor(),
            column: self.code.column_start(),
            number: num,
        }
    }

    /// Hands out the accumulated text as a numeric token. The text must
    /// be well formed for the category; its length does not matter.
    fn set_number_token(&mut self, tp: TokenType) -> (r: Result<Token, LexerError>)
        ensures
            final(self)@ == finish_number(old(self)@, tp).state,
            token_result_view(r) == finish_number(old(self)@, tp).result,
    {
        let t = self.set_token(tp);
        if t.number.is_some() {
            Ok(t)
        } else {
            Err(number_failure(tp))
        }
    }

    /// Scans a decimal literal from its first digit and hands it out.
    fn handle_decimal_numeric(&mut self, radix_prefix: bool) -> (r: Result<Token, LexerError>)
        ensures
            final(self)@ == decimal_literal(old(self)@, radix_prefix).state,
            token_result_view(r) == decimal_literal(old(self)@, radix_prefix).result,
    {
        let mut has_radix = false;
        loop
            invariant
                decimal_digits(self@, has_radix, radix_prefix) == decimal_digits(
                    old(self)@,
                    false,
                    radix_prefix,
                ),
            ensures
                trailing_check(self@) == decimal_digits(old(self)@, false, radix_prefix),
            decreases self@.code.rest.len(),
        {
            match self.code.peek() {
                Some(nt) => {
                    if '0' <= nt && nt <= '9' {
                        self.accept(nt);
                        self.code.next();
                    } else if nt == '.' {
                        if radix_prefix || has_radix {
                            let msg = " . ".to_owned();
                            proof {
                                reveal_strlit(" . ");
                                assert(msg@ =~= stray_point());
                            }
                            return Err(LexerError::UnexpectedToken(msg));
                        } else {
                            has_radix = true;
                            self.accept('.');
                            self.code.next();
                        }
                    } else if nt == '_' {
                        self.code.next();
                    } else {
                        break ;
                    }
                },
                None => {
                    break ;
                },
            }
        }
        match self.check_after_numeric() {
            Ok(_) => self.set_number_token(TokenType::NUMERIC_LITERAL_DECIMAL),
            Err(e) => Err(e),
        }
    }

    /// Scans the literal whose leading `0` stands at the cursor: one with
    /// a radix prefix, one of the legacy form, or the `0` alone.
    fn handle_number_start_with_zero(&mut self) -> (r: Result<Token, LexerError>)
        ensures
            final(self)@ == zero_literal(old(self)@).state,
            token_result_view(r) == zero_literal(old(self)@).result,
    {
        self.code.next();
        match self.code.peek() {
            Some('O') | Some('o') => {
                self.code.next();
                match self.octal_number() {
                    Ok(_) => self.set_number_token(TokenType::NUMERIC_LITERAL_OCTAL),
                    Err(e) => Err(e),
                }
            },
            Some('b') | Some('B') => {
                self.code.next();
                match self.binary_number() {
                    Ok(_) => self.set_number_token(TokenType::NUMERIC_LITERAL_BINARY),
                    Err(e) => Err(e),
                }
            },
            Some('x') | Some('X') => {
                self.code.next();
                match self.hex_number() {
                    Ok(_) => self.set_number_token(TokenType::NUMERIC_LITERAL_HEX),
                    Err(e) => Err(e),
                }
            },
            Some('0'..='9') => self.octal_or_decimal_number(),
            _ => {
                self.accept('0');
                match self.check_after_numeric() {
                    Ok(_) => self.set_number_token(TokenType::NUMERIC_LITERAL_DECIMAL),
                    Err(e) => Err(e),
                }
            },
        }
    }

    /// Scans the digits of a literal of the legacy form: octal unless one
    /// of them is `8` or `9`.
    fn octal_or_decimal_number(&mut self) -> (r: Result<Token, LexerError>)
        ensures
            final(self)@ == legacy_literal(old(self)@).state,
            token_result_view(r) == legacy_literal(old(self)@).result,
    {
        let mut is_decimal = false;
        loop
            invariant
                digit_run(self@, 10) == digit_run(old(self)@, 10),
                (is_decimal || run_has_high_digit(self@.code)) == run_has_high_digit(
                    old(self)@.code,
                ),
            ensures
                self@ == digit_run(old(self)@, 10),
                is_decimal == run_has_high_digit(old(self)@.code),
            decreases self@.code.rest.len(),
        {
            match self.code.peek() {
                Some(c) => {
                    if '0' <= c && c <= '7' {
                        self.code.next();
                        self.accept(c);
                    } else if '8' <= c && c <= '9' {
                        self.code.next();
                        is_decimal = true;
                        self.accept(c);
                    } else if c == '_' {
                        self.code.next();
                    } else {
                        break ;
                    }
                },
                None => {
                    break ;
                },
            }
        }
        match self.check_after_numeric() {
            Ok(_) => if is_decimal {
                self.set_number_token(TokenType::NUMERIC_LITERAL_DECIMAL)
            } else {
                self.set_number_token(TokenType::NUMERIC_LITERAL_OCTAL)
            },
            Err(e) => Err(e),
        }
    }

    /// Accumulates a run of digits of the given radix and drops the `_`
    /// separators among them.
    fn scan_digits(&mut self, radix: u32)
        ensures
            final(self)@ == digit_run(old(self)@, radix as nat),
    {
        loop
            invariant
                digit_run(self@, radix as nat) == digit_run(old(self)@, radix as nat),
            ensures
                self@ == digit_run(old(self)@, radix as nat),
            decreases self@.code.rest.len(),
        {
            match self.code.peek() {
                Some(c) => {
                    if is_digit_in(c, radix) {
                        self.code.next();
                        self.accept(c);
                    } else if c == '_' {
                        self.code.next();
                    } else {
                        break ;
                    }
                },
                None => {
                    break ;
                },
            }
        }
    }

    /// Scans octal digits and checks what follows them.
    fn octal_number(&mut self) -> (r: Result<(), LexerError>)
        ensures
            final(self)@ == radix_digits(old(self)@, 8).state,
            result_view(r) == radix_digits(old(self)@, 8).result,
    {
        self.scan_digits(8);
        self.check_after_numeric()
    }

    /// Scans binary digits and checks what follows them.
    fn binary_number(&mut self) -> (r: Result<(), LexerError>)
        ensures
            final(self)@ == radix_digits(old(self)@, 2).state,
            result_view(r) == radix_digits(old(self)@, 2).result,
    {
        self.scan_digits(2);
        self.check_after_numeric()
    }

    /// Scans hexadecimal digits and checks what follows them.
    fn hex_number(&mut self) -> (r: Result<(), LexerError>)
        ensures
            final(self)@ == radix_digits(old(self)@, 16).state,
            result_view(r) == radix_digits(old(self)@, 16).result,
    {
        self.scan_digits(16);
        self.check_after_numeric()
    }

    /// Refuses a character behind a numeric literal that begins an
    /// identifier or is a digit.
    fn check_after_numeric(&mut self) -> (r: Result<(), LexerError>)
        ensures
            final(self)@ == trailing_check(old(self)@).state,
            result_view(r) == trailing_check(old(self)@).result,
    {
        let nc = self.code.peek();
        if let Some(c) = nc {
            if is_identifier_start(c) || ('0' <= c && c <= '9') {
                return Err(LexerError::UnexpectedToken(char_text(c)));
            }
        }
        Ok(())
    }

    /// Scans a string literal from behind its opening quote `start`.
    pub fn string_literal(&mut self, start: char) -> (r: Result<Token, LexerError>)
        ensures
            final(self)@ == finish_scanned(
                string_body(old(self)@, start),
                TokenType::STRING_LITERAL,
            ).state,
            token_result_view(r) == finish_scanned(
                string_body(old(self)@, start),
                TokenType::STRING_LITERAL,
            ).result,
    {
        loop
            invariant
                string_body(self@, start) == string_body(old(self)@, start),
            decreases self@.code.rest.len(),
        {
            let nt = self.code.next();
            match nt {
                None => {
                    return Err(LexerError::InvalidString);
                },
                Some(c) => {
                    if is_line_break(c) {
                        return Err(LexerError::InvalidString);
                    } else if c == start {
                        return Ok(self.set_token(TokenType::STRING_LITERAL));
                    } else if c == '\\' {
                        proof {
                            lemma_escape_shrinks(self@);
                        }
                        match self.handle_string_seq() {
                            Ok(_) => {},
                            Err(e) => {
                                return Err(e);
                            },
                        }
                    } else {
                        self.accept(c);
                    }
                },
            }
        }
    }

    /// Decodes the two hexadecimal digits of an `x` escape.
    fn hex_escape(&mut self) -> (r: Result<char, LexerError>)
        ensures
            final(self)@ == hex_escape(old(self)@).state,
            result_view(r) == hex_escape(old(self)@).value,
    {
        let mut v: u32 = 0;
        let mut i: u32 = 0;
        while i < 2
            invariant
                i <= 2,
                i == 0 ==> self@ == old(self)@ && v == 0,
                i == 1 ==> {
                    &&& !old(self)@.at_end()
                    &&& spec_is_hex_digit(old(self)@.head())
                    &&& self@ == old(self)@.step()
                    &&& v == hex_digit_value(old(self)@.head())
                },
                i == 2 ==> {
                    &&& !old(self)@.at_end()
                    &&& spec_is_hex_digit(old(self)@.head())
                    &&& !old(self)@.step().at_end()
                    &&& spec_is_hex_digit(old(self)@.step().head())
                    &&& self@ == old(self)@.step().step()
                    &&& v == hex_digit_value(old(self)@.head()) * 16 + hex_digit_value(
                        old(self)@.step().head(),
                    )
                },
            decreases 2 - i,
        {
            let pn = self.code.peek();
            if let Some(n) = pn {
                let dtr = hex_char_to_digit(n);
                match dtr {
                    Ok(d) => {
                        assert(v << 4 | d == v * 16 + d) by (bit_vector)
                            requires
                                v < 16,
                                d < 16,
                        ;
                        v = v << 4 | d;
                        self.code.next();
                    },
                    Err(e) => {
                        return Err(e);
                    },
                }
            } else {
                return Err(LexerError::InvalidOctalSeq);
            }
            i = i + 1;
        }
        digit_to_char(v)
    }

    /// Takes one more digit of a legacy octal escape whose value so far is
    /// `v`, if it keeps the value within 255.
    fn octal_digit(&mut self, v: u32) -> (r: Option<u32>)
        requires
            v <= 255,
        ensures
            octal_continues(old(self)@, v as nat) ==> final(self)@ == old(self)@.step() && r
                == Some((v * 8 + hex_digit_value(old(self)@.head())) as u32),
            !octal_continues(old(self)@, v as nat) ==> final(self)@ == old(self)@ && r is None,
    {
        match self.code.peek() {
            Some(n) => {
                if '0' <= n && n <= '7' {
                    let to_num = n as u32 - 48;
                    assert(v << 3 | to_num == v * 8 + to_num) by (bit_vector)
                        requires
                            v <= 255,
                            to_num < 8,
                    ;
                    let tmp = v << 3 | to_num;
                    if tmp > 255 {
                        None
                    } else {
                        self.code.next();
                        Some(tmp)
                    }
                } else {
                    None
                }
            },
            None => None,
        }
    }

    /// Decodes a legacy octal escape from behind its first digit.
    fn octal_escape(&mut self, first: char) -> (r: Result<char, LexerError>)
        requires
            is_radix_digit(first, 8),
        ensures
            final(self)@ == octal_escape(old(self)@, hex_digit_value(first)).state,
            result_view(r) == octal_escape(old(self)@, hex_digit_value(first)).value,
    {
        let mut v: u32 = first as u32 - 48;
        if let Some(w) = self.octal_digit(v) {
            v = w;
            if let Some(x) = self.octal_digit(v) {
                v = x;
            }
        }
        digit_to_char(v)
    }

    /// Decodes what follows the `u` of a unicode escape: four hexadecimal
    /// digits, or at least one of them between braces.
    fn unicode_digits(&mut self) -> (r: Result<char, LexerError>)
        ensures
            final(self)@ == unicode_digits(old(self)@).state,
            result_view(r) == unicode_digits(old(self)@).value,
    {
        match self.code.peek() {
            Some('{') => {
                self.code.next();
                match self.code.peek() {
                    Some(first) => {
                        if !is_hex_digit(first) {
                            return Err(LexerError::InvalidUnicodeSequence);
                        }
                    },
                    None => {
                        return Err(LexerError::InvalidUnicodeSequence);
                    },
                }
                match self.try_code_point() {
                    Ok(c) => match self.code.peek() {
                        Some('}') => {
                            self.code.next();
                            Ok(c)
                        },
                        _ => Err(LexerError::InvalidUnicodeSequence),
                    },
                    Err(e) => Err(e),
                }
            },
            Some(_) => self.try_four_hex_num(),
            None => Err(LexerError::InvalidUnicodeSequence),
        }
    }

    /// Decodes the escape sequence behind a backslash in a string literal
    /// and accumulates the character it denotes.
    pub fn handle_string_seq(&mut self) -> (r: Result<(), LexerError>)
        ensures
            final(self)@ == accept_escape(old(self)@).state,
            result_view(r) == accept_escape(old(self)@).result,
    {
        let decoded = match self.code.next() {
            None => Err(LexerError::InvalidString),
            Some(c) => match c {
                // special escape char
                'b' => Ok('\u{8}'),
                't' => Ok('\u{9}'),
                'n' => Ok('\u{a}'),
                'v' => Ok('\u{b}'),
                'f' => Ok('\u{c}'),
                'r' => Ok('\u{d}'),
                // \xXX, must be followed by 2 hex char
                'x' => self.hex_escape(),
                // \xxx, 1-3 octal digits
                '0'..='7' => self.octal_escape(c),
                // \uxxxx or \u{xxxx}
                'u' => self.unicode_digits(),
                other => Ok(other),
            },
        };
        match decoded {
            Ok(c) => {
                self.accept(c);
                Ok(())
            },
            Err(e) => Err(e),
        }
    }

    /// Scans an identifier and hands it out as a token; a reserved word
    /// gets its own category.
    pub fn handle_identifier(&mut self) -> (r: Result<Token, LexerError>)
        ensures
            final(self)@ == word_from(old(self)@).state,
            token_result_view(r) == word_from(old(self)@).result,
    {
        loop
            invariant
                identifier_body(self@) == identifier_body(old(self)@),
            ensures
                identifier_body(old(self)@) == self@.ok(),
            decreases self@.code.rest.len(),
        {
            match self.code.peek() {
                Some(nt) => {
                    if is_identifier_continue(nt) {
                        self.accept(nt);
                        self.code.next();
                    } else if nt == '\\' {
                        self.code.next();
                        proof {
                            lemma_unicode_escape_shrinks(self@);
                        }
                        let v = match self.handle_unicode_seq() {
                            Ok(v) => v,
                            Err(e) => {
                                return Err(e);
                            },
                        };
                        if !is_identifier_continue(v) {
                            return Err(LexerError::InvalidUnicodeSequence);
                        }
                        self.accept(v);
                    } else {
                        break ;
                    }
                },
                None => {
                    break ;
                },
            }
        }
        Ok(self.token_finishup())
    }

    /// Hands out the accumulated identifier as a token.
    pub fn token_finishup(&mut self) -> (r: Token)
        ensures
            final(self)@ == finish_word(old(self)@).state,
            r@ == finish_word(old(self)@).token,
    {
        let kd = try_keyword(self.cache.as_str());
        self.set_token(kd)
    }

    /// Decodes the unicode escape behind a backslash in an identifier.
    pub fn handle_unicode_seq(&mut self) -> (r: Result<char, LexerError>)
        ensures
            final(self)@ == unicode_escape(old(self)@).state,
            result_view(r) == unicode_escape(old(self)@).value,
    {
        if let Some(next) = self.code.next() {
            if next == 'u' {
                self.unicode_digits()
            } else {
                Err(LexerError::InvalidUnicodeSequence)
            }
        } else {
            Err(LexerError::InvalidUnicodeSequence)
        }
    }

    /// Reads four hexadecimal digits as a code point.
    pub fn try_four_hex_num(&mut self) -> (r: Result<char, LexerError>)
        ensures
            final(self)@ == four_hex(old(self)@).state,
            result_view(r) == four_hex(old(self)@).value,
    {
        let mut v: u32 = 0;
        let mut i: u32 = 0;
        while i < 4
            invariant
                i <= 4,
                i == 0 ==> v == 0,
                i == 1 ==> v < 0x10,
                i == 2 ==> v < 0x100,
                i == 3 ==> v < 0x1000,
                i == 4 ==> v < 0x10000,
                fixed_hex(self@, (4 - i) as nat, v as nat) == fixed_hex(old(self)@, 4, 0),
            decreases 4 - i,
        {
            let nt = self.code.next();
            if let Some(ch) = nt {
                let dg = match hex_char_to_digit(ch) {
                    Ok(dg) => dg,
                    Err(e) => {
                        return Err(e);
                    },
                };
                assert(v << 4 | dg == v * 16 + dg) by (bit_vector)
                    requires
                        v < 0x1000,
                        dg < 16,
                ;
                v = v << 4 | dg;
            } else {
                return Err(LexerError::InvalidUnicodeSequence);
            }
            i = i + 1;
        }
        digit_to_char(v)
    }

    /// Reads a run of hexadecimal digits as a code point. The character
    /// behind the run stays in place.
    pub fn try_code_point(&mut self) -> (r: Result<char, LexerError>)
        ensures
            final(self)@ == code_point(old(self)@).state,
            result_view(r) == code_point(old(self)@).value,
    {
        let mut v: u32 = 0;
        let ghost mut acc: nat = 0;
        loop
            invariant
                hex_run(self@, acc) == hex_run(old(self)@, 0),
                v <= 0x110000,
                acc <= 0x10FFFF ==> v == acc,
                acc > 0x10FFFF ==> v == 0x110000,
            ensures
                hex_run(old(self)@, 0) == (Counted { state: self@, value: Ok(acc) }),
                v <= 0x110000,
                acc <= 0x10FFFF ==> v == acc,
                acc > 0x10FFFF ==> v == 0x110000,
            decreases self@.code.rest.len(),
        {
            let n = match self.code.peek() {
                None => {
                    return Err(LexerError::InvalidUnicodeSequence);
                },
                Some(c) => match hex_char_to_digit(c) {
                    Ok(n) => n,
                    Err(_) => {
                        break ;
                    },
                },
            };
            self.code.next();
            proof {
                acc = acc * 16 + n as nat;
            }
            if v <= 0x10FFFF {
                assert(v << 4 | n == v * 16 + n) by (bit_vector)
                    requires
                        v <= 0x10FFFF,
                        n < 16,
                ;
                v = v << 4 | n;
                if v > 0x10FFFF {
                    v = 0x110000;
                }
            }
        }
        digit_to_char(v)
    }

    /// Appends a character to the text of the current lexeme.
    pub fn accept(&mut self, tk: char)
        ensures
            final(self)@ == old(self)@.accept(tk),
    {
        string_push(&mut self.cache, tk);
    }
}

} // verus!
