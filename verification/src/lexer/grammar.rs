//! The scanning rules, stated on a mathematical model of the scanner: the
//! cursor over the text that is left and the characters accumulated for the
//! current lexeme. Every rule maps a state to the state in which scanning
//! stops, together with what was recognised or why it failed.

use crate::input::CodeView;
use crate::lexer::error::{LexerError, LexerErrorView};
use crate::lexer::token::{
    code_point_char, hex_digit_value, is_ascii_digit, keyword_category, spec_is_blank,
    spec_is_hex_digit, spec_is_identifier_continue, spec_is_identifier_start,
    spec_is_string_literal_start, Token, TokenType, TokenView,
};
use crate::lexer::util::{is_radix_digit, numeric_value};
use vstd::prelude::*;

verus! {

/// State of the scanner: the cursor and the accumulation buffer.
pub struct LexerView {
    pub code: CodeView,
    pub cache: Seq<char>,
}

/// Where a scan stopped, and whether it succeeded.
pub struct Scanned {
    pub state: LexerView,
    pub result: Result<(), LexerErrorView>,
}

/// Where the decoding of an escape stopped, and the character it denotes.
pub struct Decoded {
    pub state: LexerView,
    pub value: Result<char, LexerErrorView>,
}

/// Where the reading of a run of digits stopped, and their value.
pub struct Counted {
    pub state: LexerView,
    pub value: Result<nat, LexerErrorView>,
}

/// Where the scanner stands after one request, and what it hands out.
pub struct Lexed {
    pub state: LexerView,
    pub result: Result<TokenView, LexerErrorView>,
}

/// A finished token and the state that is left behind.
pub struct Finished {
    pub state: LexerView,
    pub token: TokenView,
}

impl LexerView {
    /// The scanner over a whole text, with nothing accumulated.
    pub open spec fn start(text: Seq<char>) -> LexerView {
        LexerView { code: CodeView::start(text), cache: Seq::empty() }
    }

    /// Whether no text is left.
    pub open spec fn at_end(self) -> bool {
        self.code.at_end()
    }

    /// The next character; meaningful unless the scanner is at the end.
    pub open spec fn head(self) -> char {
        self.code.head()
    }

    /// Whether the next character is `c`.
    pub open spec fn sees_char(self, c: char) -> bool {
        !self.at_end() && self.head() == c
    }

    /// Consumes one character.
    pub open spec fn step(self) -> LexerView {
        LexerView { code: self.code.step(), ..self }
    }

    /// Appends a character to the accumulation buffer.
    pub open spec fn accept(self, c: char) -> LexerView {
        LexerView { cache: self.cache.push(c), ..self }
    }

    /// Consumes the next character and appends it to the buffer.
    pub open spec fn shift(self) -> LexerView {
        self.accept(self.head()).step()
    }

    /// Empties the accumulation buffer.
    pub open spec fn clear(self) -> LexerView {
        LexerView { cache: Seq::empty(), ..self }
    }

    /// Records the current column as the start of a lexeme.
    pub open spec fn mark(self) -> LexerView {
        LexerView { code: self.code.mark(), ..self }
    }

    /// A scan that succeeded in this state.
    pub open spec fn ok(self) -> Scanned {
        Scanned { state: self, result: Ok(()) }
    }

    /// A scan that failed in this state.
    pub open spec fn fail(self, e: LexerErrorView) -> Scanned {
        Scanned { state: self, result: Err(e) }
    }
}

/// View of the outcome of a request for a token.
pub open spec fn token_result_view(r: Result<Token, LexerError>) -> Result<
    TokenView,
    LexerErrorView,
> {
    match r {
        Ok(t) => Ok(t@),
        Err(e) => Err(e@),
    }
}

// ---------------------------------------------------------------------
// Token finalization
// ---------------------------------------------------------------------
/// Builds a token of category `tp` from the accumulated text: the column
/// is the one recorded at the start of the lexeme, the line is the current
/// one, and a numeric value is present exactly when the category is numeric
/// and the text is a number of that radix. The buffer is left empty.
pub open spec fn finish(s: LexerView, tp: TokenType) -> Finished {
    Finished {
        state: s.clear(),
        token: TokenView {
            value: s.cache,
            number: numeric_value(s.cache, tp),
            category: tp,
            line: s.code.line,
            column: s.code.column_start,
        },
    }
}

/// The failure reported for a numeric lexeme without a numeric value.
pub open spec fn number_error(tp: TokenType) -> LexerErrorView {
    match tp {
        TokenType::NUMERIC_LITERAL_BINARY => LexerErrorView::InvalidBinaryNumber,
        TokenType::NUMERIC_LITERAL_OCTAL => LexerErrorView::InvalidOctalNumber,
        TokenType::NUMERIC_LITERAL_HEX => LexerErrorView::InvalidHexNumber,
        _ => LexerErrorView::InvalidNumberSeq,
    }
}

/// Finishes a token whose text must have a numeric value, which it has
/// where it is well formed for the category, whatever its length.
pub open spec fn finish_number(s: LexerView, tp: TokenType) -> Lexed {
    let f = finish(s, tp);
    if f.token.number is Some {
        Lexed { state: f.state, result: Ok(f.token) }
    } else {
        Lexed { state: f.state, result: Err(number_error(tp)) }
    }
}

/// Finishes a token of category `tp` if the scan succeeded.
pub open spec fn finish_scanned(sc: Scanned, tp: TokenType) -> Lexed {
    match sc.result {
        Ok(_) => {
            let f = finish(sc.state, tp);
            Lexed { state: f.state, result: Ok(f.token) }
        },
        Err(e) => Lexed { state: sc.state, result: Err(e) },
    }
}

/// Finishes a numeric token of category `tp` if the scan succeeded.
pub open spec fn finish_scanned_number(sc: Scanned, tp: TokenType) -> Lexed {
    match sc.result {
        Ok(_) => finish_number(sc.state, tp),
        Err(e) => Lexed { state: sc.state, result: Err(e) },
    }
}

// ---------------------------------------------------------------------
// Numeric literals
// ---------------------------------------------------------------------
/// Consumes the longest run of digits of the given radix and of `_`
/// separators; the digits are accumulated, the separators dropped.
pub open spec fn digit_run(s: LexerView, radix: nat) -> LexerView
    decreases s.code.rest.len(),
{
    if !s.at_end() && is_radix_digit(s.head(), radix) {
        digit_run(s.shift(), radix)
    } else if s.sees_char('_') {
        digit_run(s.step(), radix)
    } else {
        s
    }
}

/// Whether the digit run that starts at `s` holds an `8` or a `9`.
pub open spec fn run_has_high_digit(c: CodeView) -> bool
    decreases c.rest.len(),
{
    if !c.at_end() && is_ascii_digit(c.head()) {
        c.head() == '8' || c.head() == '9' || run_has_high_digit(c.step())
    } else if !c.at_end() && c.head() == '_' {
        run_has_high_digit(c.step())
    } else {
        false
    }
}

/// A numeric literal must not run into an identifier or a further digit:
/// such a character is reported and stays in place.
pub open spec fn trailing_check(s: LexerView) -> Scanned {
    if !s.at_end() && (spec_is_identifier_start(s.head()) || is_ascii_digit(s.head())) {
        s.fail(LexerErrorView::UnexpectedToken(seq![s.head()]))
    } else {
        s.ok()
    }
}

/// A run of digits of the given radix followed by the trailing check.
pub open spec fn radix_digits(s: LexerView, radix: nat) -> Scanned {
    trailing_check(digit_run(s, radix))
}

/// The diagnostic for a decimal point that is out of place.
pub open spec fn stray_point() -> Seq<char> {
    seq![' ', '.', ' ']
}

/// Decimal digits with `_` separators and at most one decimal point,
/// followed by the trailing check. A second point, or any point where
/// `radix_prefix` is set, is reported and stays in place.
pub open spec fn decimal_digits(s: LexerView, seen_point: bool, radix_prefix: bool) -> Scanned
    decreases s.code.rest.len(),
{
    if !s.at_end() && is_ascii_digit(s.head()) {
        decimal_digits(s.shift(), seen_point, radix_prefix)
    } else if s.sees_char('.') {
        if radix_prefix || seen_point {
            s.fail(LexerErrorView::UnexpectedToken(stray_point()))
        } else {
            decimal_digits(s.shift(), true, radix_prefix)
        }
    } else if s.sees_char('_') {
        decimal_digits(s.step(), seen_point, radix_prefix)
    } else {
        trailing_check(s)
    }
}

/// The literal that follows a leading `1`-`9`.
pub open spec fn decimal_literal(s: LexerView, radix_prefix: bool) -> Lexed {
    finish_scanned_number(
        decimal_digits(s, false, radix_prefix),
        TokenType::NUMERIC_LITERAL_DECIMAL,
    )
}

/// The legacy form `0` + digits: octal unless a digit is `8` or `9`.
pub open spec fn legacy_literal(s: LexerView) -> Lexed {
    finish_scanned_number(
        radix_digits(s, 10),
        if run_has_high_digit(s.code) {
            TokenType::NUMERIC_LITERAL_DECIMAL
        } else {
            TokenType::NUMERIC_LITERAL_OCTAL
        },
    )
}

/// The literal whose leading `0` stands at the cursor.
pub open spec fn zero_literal(s: LexerView) -> Lexed {
    let z = s.step();
    if z.sees_char('o') || z.sees_char('O') {
        finish_scanned_number(radix_digits(z.step(), 8), TokenType::NUMERIC_LITERAL_OCTAL)
    } else if z.sees_char('b') || z.sees_char('B') {
        finish_scanned_number(radix_digits(z.step(), 2), TokenType::NUMERIC_LITERAL_BINARY)
    } else if z.sees_char('x') || z.sees_char('X') {
        finish_scanned_number(radix_digits(z.step(), 16), TokenType::NUMERIC_LITERAL_HEX)
    } else if !z.at_end() && is_ascii_digit(z.head()) {
        legacy_literal(z)
    } else {
        finish_scanned_number(trailing_check(z.accept('0')), TokenType::NUMERIC_LITERAL_DECIMAL)
    }
}

// ---------------------------------------------------------------------
// Escape sequences
// ---------------------------------------------------------------------
/// Reads exactly `count` hexadecimal digits into `acc`. A character that
/// is no digit is consumed and reported; so is the end of the text.
pub open spec fn fixed_hex(s: LexerView, count: nat, acc: nat) -> Counted
    decreases count,
{
    if count == 0 {
        Counted { state: s, value: Ok(acc) }
    } else if s.at_end() {
        Counted { state: s, value: Err(LexerErrorView::InvalidUnicodeSequence) }
    } else if !spec_is_hex_digit(s.head()) {
        Counted { state: s.step(), value: Err(LexerErrorView::InvalidHexNumber) }
    } else {
        fixed_hex(s.step(), (count - 1) as nat, acc * 16 + hex_digit_value(s.head()))
    }
}

/// Reads the longest run of hexadecimal digits into `acc`. The run must be
/// followed by some character, which stays in place.
pub open spec fn hex_run(s: LexerView, acc: nat) -> Counted
    decreases s.code.rest.len(),
{
    if s.at_end() {
        Counted { state: s, value: Err(LexerErrorView::InvalidUnicodeSequence) }
    } else if spec_is_hex_digit(s.head()) {
        hex_run(s.step(), acc * 16 + hex_digit_value(s.head()))
    } else {
        Counted { state: s, value: Ok(acc) }
    }
}

/// The character for a code point that was read, if it was read.
pub open spec fn to_code_point(n: Counted) -> Decoded {
    Decoded {
        state: n.state,
        value: match n.value {
            Ok(v) => code_point_char(v),
            Err(e) => Err(e),
        },
    }
}

/// Four hexadecimal digits that give a code point.
pub open spec fn four_hex(s: LexerView) -> Decoded {
    to_code_point(fixed_hex(s, 4, 0))
}

/// A run of hexadecimal digits that gives a code point.
pub open spec fn code_point(s: LexerView) -> Decoded {
    to_code_point(hex_run(s, 0))
}

/// The escape `u{...}` from behind its opening brace: at least one
/// hexadecimal digit, the digits giving a code point, and the closing
/// brace, which is consumed. Where the first character is no digit, or the
/// character behind the digits no closing brace, the escape is refused
/// and that character stays in place.
pub open spec fn braced_code_point(s: LexerView) -> Decoded {
    if s.at_end() || !spec_is_hex_digit(s.head()) {
        Decoded { state: s, value: Err(LexerErrorView::InvalidUnicodeSequence) }
    } else {
        let d = code_point(s);
        match d.value {
            Ok(_) => if d.state.sees_char('}') {
                Decoded { state: d.state.step(), value: d.value }
            } else {
                Decoded { state: d.state, value: Err(LexerErrorView::InvalidUnicodeSequence) }
            },
            Err(_) => d,
        }
    }
}

/// The escape `u` from behind the `u`: either four digits or digits
/// between braces.
pub open spec fn unicode_digits(s: LexerView) -> Decoded {
    if s.at_end() {
        Decoded { state: s, value: Err(LexerErrorView::InvalidUnicodeSequence) }
    } else if s.head() == '{' {
        braced_code_point(s.step())
    } else {
        four_hex(s)
    }
}

/// The unicode escape of an identifier, from behind the backslash.
pub open spec fn unicode_escape(s: LexerView) -> Decoded {
    if s.at_end() {
        Decoded { state: s, value: Err(LexerErrorView::InvalidUnicodeSequence) }
    } else if s.head() != 'u' {
        Decoded { state: s.step(), value: Err(LexerErrorView::InvalidUnicodeSequence) }
    } else {
        unicode_digits(s.step())
    }
}

/// The escape `x` from behind the `x`: two hexadecimal digits. A character
/// that is no digit is reported and stays in place.
pub open spec fn hex_escape(s: LexerView) -> Decoded {
    if s.at_end() {
        Decoded { state: s, value: Err(LexerErrorView::InvalidOctalSeq) }
    } else if !spec_is_hex_digit(s.head()) {
        Decoded { state: s, value: Err(LexerErrorView::InvalidHexNumber) }
    } else {
        let t = s.step();
        if t.at_end() {
            Decoded { state: t, value: Err(LexerErrorView::InvalidOctalSeq) }
        } else if !spec_is_hex_digit(t.head()) {
            Decoded { state: t, value: Err(LexerErrorView::InvalidHexNumber) }
        } else {
            Decoded {
                state: t.step(),
                value: code_point_char(hex_digit_value(s.head()) * 16 + hex_digit_value(t.head())),
            }
        }
    }
}

/// Whether one more octal digit can be taken: it must keep the value of the
/// escape within 255.
pub open spec fn octal_continues(s: LexerView, v: nat) -> bool {
    !s.at_end() && is_radix_digit(s.head(), 8) && v * 8 + hex_digit_value(s.head()) <= 255
}

/// The legacy octal escape from behind its first digit, whose value is
/// `v`: up to two more digits.
pub open spec fn octal_escape(s: LexerView, v: nat) -> Decoded {
    if !octal_continues(s, v) {
        Decoded { state: s, value: code_point_char(v) }
    } else {
        let w = v * 8 + hex_digit_value(s.head());
        let t = s.step();
        if !octal_continues(t, w) {
            Decoded { state: t, value: code_point_char(w) }
        } else {
            Decoded { state: t.step(), value: code_point_char(w * 8 + hex_digit_value(t.head())) }
        }
    }
}

/// The control character that a one-letter escape names, if it names one.
pub open spec fn control_escape(c: char) -> Option<char> {
    if c == 'b' {
        Some('\u{8}')
    } else if c == 't' {
        Some('\u{9}')
    } else if c == 'n' {
        Some('\u{a}')
    } else if c == 'v' {
        Some('\u{b}')
    } else if c == 'f' {
        Some('\u{c}')
    } else if c == 'r' {
        Some('\u{d}')
    } else {
        None
    }
}

/// The escape sequence of a string literal, from behind the backslash.
pub open spec fn escape(s: LexerView) -> Decoded {
    if s.at_end() {
        Decoded { state: s, value: Err(LexerErrorView::InvalidString) }
    } else {
        let c = s.head();
        let t = s.step();
        if control_escape(c) is Some {
            Decoded { state: t, value: Ok(control_escape(c)->0) }
        } else if c == 'x' {
            hex_escape(t)
        } else if is_radix_digit(c, 8) {
            octal_escape(t, hex_digit_value(c))
        } else if c == 'u' {
            unicode_digits(t)
        } else {
            Decoded { state: t, value: Ok(c) }
        }
    }
}

/// Decodes an escape sequence and accumulates its character.
pub open spec fn accept_escape(s: LexerView) -> Scanned {
    let d = escape(s);
    match d.value {
        Ok(c) => d.state.accept(c).ok(),
        Err(e) => d.state.fail(e),
    }
}

// ---------------------------------------------------------------------
// Lemmas on how far a rule reads
// ---------------------------------------------------------------------
/// Reading a fixed number of hexadecimal digits leaves no more text than
/// there was and does not touch the buffer.
pub proof fn lemma_fixed_hex_shrinks(s: LexerView, count: nat, acc: nat)
    ensures
        fixed_hex(s, count, acc).state.code.rest.len() <= s.code.rest.len(),
        fixed_hex(s, count, acc).state.cache == s.cache,
    decreases count,
{
    if count == 0 || s.at_end() || !spec_is_hex_digit(s.head()) {
    } else {
        lemma_fixed_hex_shrinks(
            s.step(),
            (count - 1) as nat,
            acc * 16 + hex_digit_value(s.head()),
        );
    }
}

/// Reading a run of hexadecimal digits leaves no more text than there
/// was, does not touch the buffer and, where it succeeds, stops in front
/// of a character.
pub proof fn lemma_hex_run_shrinks(s: LexerView, acc: nat)
    ensures
        hex_run(s, acc).state.code.rest.len() <= s.code.rest.len(),
        hex_run(s, acc).state.cache == s.cache,
        hex_run(s, acc).value is Ok ==> !hex_run(s, acc).state.at_end(),
    decreases s.code.rest.len(),
{
    if s.at_end() || !spec_is_hex_digit(s.head()) {
    } else {
        lemma_hex_run_shrinks(s.step(), acc * 16 + hex_digit_value(s.head()));
    }
}

/// Decoding the digits of a unicode escape leaves no more text than
/// there was and does not touch the buffer.
pub proof fn lemma_unicode_digits_shrinks(s: LexerView)
    ensures
        unicode_digits(s).state.code.rest.len() <= s.code.rest.len(),
        unicode_digits(s).state.cache == s.cache,
{
    if s.at_end() {
    } else if s.head() == '{' {
        lemma_hex_run_shrinks(s.step(), 0);
    } else {
        lemma_fixed_hex_shrinks(s, 4, 0);
    }
}

/// Decoding a unicode escape leaves no more text than there was and does
/// not touch the buffer.
pub proof fn lemma_unicode_escape_shrinks(s: LexerView)
    ensures
        unicode_escape(s).state.code.rest.len() <= s.code.rest.len(),
        unicode_escape(s).state.cache == s.cache,
{
    if !s.at_end() && s.head() == 'u' {
        lemma_unicode_digits_shrinks(s.step());
    }
}

/// Decoding an escape sequence leaves no more text than there was and
/// does not touch the buffer.
pub proof fn lemma_escape_shrinks(s: LexerView)
    ensures
        escape(s).state.code.rest.len() <= s.code.rest.len(),
        escape(s).state.cache == s.cache,
{
    if !s.at_end() && s.head() == 'u' {
        lemma_unicode_digits_shrinks(s.step());
    }
}

// ---------------------------------------------------------------------
// String literals
// ---------------------------------------------------------------------
/// A string literal from behind its opening quote, up to and including
/// the closing `quote`. A raw line terminator and the end of the text are
/// failures; a backslash starts an escape sequence; every other character
/// stands for itself.
pub open spec fn string_body(s: LexerView, quote: char) -> Scanned
    decreases s.code.rest.len(),
    via string_body_decreases
{
    if s.at_end() {
        s.fail(LexerErrorView::InvalidString)
    } else if crate::input::spec_is_line_break(s.head()) {
        s.step().fail(LexerErrorView::InvalidString)
    } else if s.head() == quote {
        s.step().ok()
    } else if s.head() == '\\' {
        let e = accept_escape(s.step());
        match e.result {
            Ok(_) => string_body(e.state, quote),
            Err(_) => e,
        }
    } else {
        string_body(s.shift(), quote)
    }
}

#[via_fn]
proof fn string_body_decreases(s: LexerView, quote: char) {
    if !s.at_end() {
        lemma_escape_shrinks(s.step());
    }
}

/// The string literal whose opening quote stands at the cursor.
pub open spec fn string_literal(s: LexerView) -> Lexed {
    finish_scanned(string_body(s.step(), s.head()), TokenType::STRING_LITERAL)
}

// ---------------------------------------------------------------------
// Identifiers and keywords
// ---------------------------------------------------------------------
/// The longest run of identifier characters. A backslash starts a unicode
/// escape, whose character must itself be an identifier character.
pub open spec fn identifier_body(s: LexerView) -> Scanned
    decreases s.code.rest.len(),
    via identifier_body_decreases
{
    if s.at_end() {
        s.ok()
    } else if spec_is_identifier_continue(s.head()) {
        identifier_body(s.shift())
    } else if s.head() == '\\' {
        let d = unicode_escape(s.step());
        match d.value {
            Ok(c) => if spec_is_identifier_continue(c) {
                identifier_body(d.state.accept(c))
            } else {
                d.state.fail(LexerErrorView::InvalidUnicodeSequence)
            },
            Err(e) => d.state.fail(e),
        }
    } else {
        s.ok()
    }
}

#[via_fn]
proof fn identifier_body_decreases(s: LexerView) {
    if !s.at_end() {
        lemma_unicode_escape_shrinks(s.step());
    }
}

/// Finishes an identifier: a reserved word gets its own category.
pub open spec fn finish_word(s: LexerView) -> Finished {
    finish(s, keyword_category(s.cache))
}

/// The identifier or keyword that is read from the cursor on.
pub open spec fn word_from(s: LexerView) -> Lexed {
    let sc = identifier_body(s);
    match sc.result {
        Ok(_) => {
            let f = finish_word(sc.state);
            Lexed { state: f.state, result: Ok(f.token) }
        },
        Err(e) => Lexed { state: sc.state, result: Err(e) },
    }
}

/// The identifier or keyword whose first character stands at the cursor.
pub open spec fn word(s: LexerView) -> Lexed {
    word_from(s.shift())
}

// ---------------------------------------------------------------------
// Dispatch
// ---------------------------------------------------------------------
/// The punctuators of one character.
pub open spec fn punctuator_category(c: char) -> Option<TokenType> {
    if c == '=' {
        Some(TokenType::ASSIGN)
    } else if c == ':' {
        Some(TokenType::COLON)
    } else if c == '[' {
        Some(TokenType::LBRACK)
    } else if c == ']' {
        Some(TokenType::RBRACK)
    } else if c == '(' {
        Some(TokenType::LPAREN)
    } else if c == ')' {
        Some(TokenType::RPAREN)
    } else if c == '{' {
        Some(TokenType::LBRACE)
    } else if c == '}' {
        Some(TokenType::RBRACE)
    } else if c == ',' {
        Some(TokenType::COMMA)
    } else if c == ';' {
        Some(TokenType::SEMICOLON)
    } else {
        None
    }
}

/// A character at which a lexeme begins: one that is no white space and
/// no line terminator, and is a punctuator, a quote, the start of an
/// identifier or a digit. Every other character is passed over between
/// lexemes.
pub open spec fn starts_lexeme(c: char) -> bool {
    !spec_is_blank(c) && (punctuator_category(c) is Some || spec_is_string_literal_start(c)
        || spec_is_identifier_start(c) || is_ascii_digit(c))
}

/// The cursor at the next character that begins a lexeme, or at the end.
pub open spec fn skip_blank(c: CodeView) -> CodeView
    decreases c.rest.len(),
{
    if !c.at_end() && !starts_lexeme(c.head()) {
        skip_blank(c.step())
    } else {
        c
    }
}

/// The punctuator at the cursor.
pub open spec fn punctuator(s: LexerView) -> Lexed {
    let f = finish(s.shift(), punctuator_category(s.head())->0);
    Lexed { state: f.state, result: Ok(f.token) }
}

/// The lexeme that starts at the cursor, which stands at a character that
/// begins one.
pub open spec fn lexeme(s: LexerView) -> Lexed {
    let c = s.head();
    if punctuator_category(c) is Some {
        punctuator(s)
    } else if spec_is_string_literal_start(c) {
        string_literal(s)
    } else if spec_is_identifier_start(c) {
        word(s)
    } else if c == '0' {
        zero_literal(s)
    } else {
        decimal_literal(s, false)
    }
}

/// One request for a token: the buffer is emptied, the characters that
/// begin no lexeme are passed over, and the lexeme that follows is
/// scanned. At the end of the text the result is `EOF`. After a failure the
/// cursor stays where scanning stopped and the buffer is empty again.
pub open spec fn lex(s: LexerView) -> Lexed {
    let t = LexerView { code: skip_blank(s.code), cache: Seq::empty() };
    if t.at_end() {
        Lexed { state: t, result: Err(LexerErrorView::EOF) }
    } else {
        let l = lexeme(t.mark());
        Lexed { state: l.state.clear(), result: l.result }
    }
}

} // verus!
