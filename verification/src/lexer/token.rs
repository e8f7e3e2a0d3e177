//! Tokens and their categories, the character classes that steer the
//! scanner, and the table of reserved words.

use crate::lexer::error::{LexerError, LexerErrorView};
use regex::Regex;
use unicode_xid::UnicodeXID;
use vstd::prelude::*;
use vstd::std_specs::convert::FromSpecImpl;
use vstd::string::StringSliceAdditionalSpecFns;

verus! {

broadcast use vstd::string::group_string_axioms;

/// The category of a token: reserved words, literal keywords, literals,
/// identifiers and punctuators.
#[allow(non_camel_case_types)]
#[derive(Debug, Clone, Copy, PartialEq, Eq, Structural)]
pub enum TokenType {
    // keywords
    BREAK,
    SWITCH,
    CASE,
    CONTINUE,
    FOR,
    LET,
    VAR,
    FUNCTION,
    THIS,
    CATCH,
    TRY,
    FINALLY,
    THROW,
    WITH,
    WHILE,
    DO,
    IF,
    ELSE,
    RETURN,
    DEFAULT,
    DELETE,
    TYPEOF,
    INSTANCEOF,
    IN,
    NEW,
    // literal
    FALSE_LITERAL,
    TRUE_LITERAL,
    NULL_LITERAL,
    UNDEFINED_LITERAL,
    NUMERIC_LITERAL,
    STRING_LITERAL,
    NUMERIC_LITERAL_BINARY,
    NUMERIC_LITERAL_OCTAL,
    NUMERIC_LITERAL_DECIMAL,
    NUMERIC_LITERAL_HEX,
    // punctuator
    SEMICOLON,
    PERIOD,  // .
    LBRACK,  // [
    RBRACK,  // ]
    LPAREN,  // (
    RPAREN,  // )
    LBRACE,  // {
    RBRACE,  // }
    COLON,  // :
    COMMA,  // ,
    NOT,  // !
    INC,  // ++
    DEC,  // --
    EQ,  // ==
    EQ_STRICT,  // ===
    NE_STRICT,  // !==
    NE,  // !=
    LT,  // <
    GT,  // >
    LTE,  // <=
    GTE,  // >=
    ADD,  // +
    SUB,  // -
    AND,  // &&
    OR,  // ||
    ASSIGN,  // =
    UNHANDLED,
    Identifier,
}

#[allow(non_upper_case_globals)]
pub const Number_Regex: &'static str = r"\d";

#[allow(non_upper_case_globals)]
pub const Punctuators_Regex: &'static str = r"\+|\-|=";

#[allow(non_upper_case_globals)]
pub const Emoji_Regex: &'static str = r"\p{Emoji}";

// special unicode chars
/// ZERO WIDTH NON-JOINER, allowed inside identifiers
pub const ZWNJ: char = '\u{200c}';

/// ZERO WIDTH JOINER, allowed inside identifiers
pub const ZWJ: char = '\u{200d}';

/// ZERO WIDTH NO-BREAK SPACE
pub const ZWNBSP: char = '\u{feff}';

// whitespace
pub const TAB: char = '\u{9}';

pub const SPACE: char = '\u{20}';

pub const NBSP: char = '\u{a0}';

pub const FF: char = '\u{c}';

// line ending
pub const LF: char = '\u{a}';

pub const CR: char = '\u{d}';

pub const LS: char = '\u{2028}';

pub const PS: char = '\u{2029}';

/// The value of a numeric literal: `digits * radix^dropped / radix^scale`.
///
/// `digits` holds the leading digits of the literal, as many as fit in 64
/// bits. `dropped` counts the digits before the decimal point that did not
/// fit; `scale` counts the kept digits behind the decimal point and is 0
/// in radix 2, 8 and 16. At most one of the two counts is not 0. Where all
/// digits fit, `dropped` is 0, `scale` counts the whole fraction and the
/// value is exact; otherwise it is the literal cut off behind the kept
/// digits.
#[derive(Debug, Clone, Copy, PartialEq, Eq, Structural)]
pub struct NumericValue {
    pub digits: u64,
    pub radix: u32,
    pub scale: usize,
    pub dropped: usize,
}

/// One lexeme with its category and the position of its first character.
#[derive(Debug)]
pub struct Token {
    pub value: String,
    pub number: Option<NumericValue>,
    pub category: TokenType,
    pub line: u64,
    pub column: u64,
}

/// Mathematical counterpart of [`Token`].
pub struct TokenView {
    pub value: Seq<char>,
    pub number: Option<NumericValue>,
    pub category: TokenType,
    pub line: nat,
    pub column: nat,
}

impl View for Token {
    type V = TokenView;

    open spec fn view(&self) -> TokenView {
        TokenView {
            value: self.value@,
            number: self.number,
            category: self.category,
            line: self.line as nat,
            column: self.column as nat,
        }
    }
}

/// The categories that a parser accepts at some point: one category, or
/// any of a list.
#[derive(Debug)]
pub enum TokenMatcher {
    Single(TokenType),
    List(Vec<TokenType>),
}

impl TokenMatcher {
    /// Whether the matcher accepts the category `tp`.
    pub open spec fn spec_accepts(self, tp: TokenType) -> bool {
        match self {
            TokenMatcher::Single(t) => t == tp,
            TokenMatcher::List(list) => list@.contains(tp),
        }
    }

    /// Whether the matcher accepts the category `tp`.
    pub fn accepts(&self, tp: TokenType) -> (r: bool)
        ensures
            r == self.spec_accepts(tp),
    {
        match self {
            TokenMatcher::Single(t) => *t == tp,
            TokenMatcher::List(list) => contains_type(list, tp),
        }
    }
}

/// Whether the category `tp` occurs in `list`.
fn contains_type(list: &Vec<TokenType>, tp: TokenType) -> (r: bool)
    ensures
        r == list@.contains(tp),
{
    let mut i: usize = 0;
    while i < list.len()
        invariant
            i <= list.len(),
            forall|j: int| 0 <= j < i ==> list@[j] != tp,
        decreases list.len() - i,
    {
        if list[i] == tp {
            return true;
        }
        i = i + 1;
    }
    false
}

impl From<TokenType> for TokenMatcher {
    fn from(tp: TokenType) -> (r: Self) {
        TokenMatcher::Single(tp)
    }
}

impl FromSpecImpl<TokenType> for TokenMatcher {
    open spec fn obeys_from_spec() -> bool {
        true
    }

    open spec fn from_spec(tp: TokenType) -> Self {
        TokenMatcher::Single(tp)
    }
}

impl From<Vec<TokenType>> for TokenMatcher {
    fn from(list: Vec<TokenType>) -> (r: Self) {
        TokenMatcher::List(list)
    }
}

impl FromSpecImpl<Vec<TokenType>> for TokenMatcher {
    open spec fn obeys_from_spec() -> bool {
        true
    }

    open spec fn from_spec(list: Vec<TokenType>) -> Self {
        TokenMatcher::List(list)
    }
}

/// The four categories of numeric literals, one for each radix.
pub open spec fn spec_is_numeric_token(tp: TokenType) -> bool {
    tp == TokenType::NUMERIC_LITERAL_BINARY || tp == TokenType::NUMERIC_LITERAL_DECIMAL || tp
        == TokenType::NUMERIC_LITERAL_OCTAL || tp == TokenType::NUMERIC_LITERAL_HEX
}

/// Whether the category is one of the four radix-specific numeric literals.
pub fn is_numeric_token(tp: TokenType) -> (r: bool)
    ensures
        r == spec_is_numeric_token(tp),
{
    match tp {
        TokenType::NUMERIC_LITERAL_BINARY
        | TokenType::NUMERIC_LITERAL_DECIMAL
        | TokenType::NUMERIC_LITERAL_OCTAL
        | TokenType::NUMERIC_LITERAL_HEX => true,
        _ => false,
    }
}

/// Equality of two string slices, decided on their UTF-8 bytes.
pub fn str_eq(a: &str, b: &str) -> (r: bool)
    ensures
        r == (a@ == b@),
{
    let x = a.as_bytes();
    let y = b.as_bytes();
    if x.len() != y.len() {
        return false;
    }
    let mut i: usize = 0;
    while i < x.len()
        invariant
            i <= x.len(),
            x.len() == y.len(),
            x@ == a.spec_bytes(),
            y@ == b.spec_bytes(),
            forall|j: int| 0 <= j < i ==> x@[j] == y@[j],
        decreases x.len() - i,
    {
        if x[i] != y[i] {
            assert(x@[i as int] != y@[i as int]);
            return false;
        }
        i = i + 1;
    }
    assert(x@ =~= y@);
    proof {
        vstd::utf8::encode_utf8_decode_utf8(a@);
        vstd::utf8::encode_utf8_decode_utf8(b@);
    }
    true
}

/// The Unicode `Alphabetic` property of a character, as `char::is_alphabetic`
/// reports it.
pub uninterp spec fn unicode_alphabetic(c: char) -> bool;

/// Calls `char::is_alphabetic`. The result is taken to be a fixed function
/// of the character, named [`unicode_alphabetic`]; nothing is claimed about
/// which characters have the property.
#[verifier::external_body]
fn char_is_alphabetic(c: char) -> (r: bool)
    ensures
        r == unicode_alphabetic(c),
{
    c.is_alphabetic()
}

/// Whether the character has the Unicode property `Alphabetic`.
pub fn is_alphabetic(s: char) -> (r: bool)
    ensures
        r == unicode_alphabetic(s),
{
    char_is_alphabetic(s)
}

/// What searching `text` with the regular expression `pattern` gives:
/// `None` where the pattern cannot be compiled, otherwise whether a match
/// exists anywhere in the text.
pub uninterp spec fn regex_search(pattern: Seq<char>, text: Seq<char>) -> Option<bool>;

/// Compiles `pattern` with `regex::Regex::new` and searches `text` with
/// `Regex::is_match`; where `Regex::new` refuses the pattern the result
/// is `None`. The result is taken to depend on the two strings alone and
/// is named [`regex_search`]; nothing is claimed about which patterns
/// compile or which texts they match.
#[verifier::external_body]
fn regex_is_match(pattern: &str, text: &str) -> (r: Option<bool>)
    ensures
        r == regex_search(pattern@, text@),
{
    match Regex::new(pattern) {
        Ok(re) => Some(re.is_match(text)),
        Err(_) => None,
    }
}

/// Reads the outcome of a search: only a successful search that found a
/// match counts.
pub fn match_found(found: Option<bool>) -> (r: bool)
    ensures
        r == (found == Some(true)),
{
    match found {
        Some(b) => b,
        None => false,
    }
}

/// Whether the text contains a decimal digit, as [`Number_Regex`] defines it.
pub fn is_numeric(s: &str) -> (r: bool)
    ensures
        r == (regex_search(Number_Regex@, s@) == Some(true)),
{
    match_found(regex_is_match(Number_Regex, s))
}

/// Whether the text contains one of the characters of [`Punctuators_Regex`].
pub fn is_punctuator(s: &str) -> (r: bool)
    ensures
        r == (regex_search(Punctuators_Regex@, s@) == Some(true)),
{
    match_found(regex_is_match(Punctuators_Regex, s))
}

/// The category of the punctuator that the text spells, `UNHANDLED` if it
/// spells none of `+`, `-`, `=`, `(` and `)`.
pub open spec fn spec_punctuator_type(s: Seq<char>) -> TokenType {
    if s == "+"@ {
        TokenType::ADD
    } else if s == "-"@ {
        TokenType::SUB
    } else if s == "="@ {
        TokenType::ASSIGN
    } else if s == "("@ {
        TokenType::LPAREN
    } else if s == ")"@ {
        TokenType::RPAREN
    } else {
        TokenType::UNHANDLED
    }
}

/// The category of the punctuator that the text spells.
pub fn get_punctuator_type(s: &str) -> (r: TokenType)
    ensures
        r == spec_punctuator_type(s@),
{
    if str_eq(s, "+") {
        TokenType::ADD
    } else if str_eq(s, "-") {
        TokenType::SUB
    } else if str_eq(s, "=") {
        TokenType::ASSIGN
    } else if str_eq(s, "(") {
        TokenType::LPAREN
    } else if str_eq(s, ")") {
        TokenType::RPAREN
    } else {
        TokenType::UNHANDLED
    }
}

/// The two quotes that open a string literal.
pub open spec fn spec_is_string_literal_start(c: char) -> bool {
    c == '\'' || c == '"'
}

/// Whether the character opens a string literal.
pub fn is_string_literal_start(s: char) -> (r: bool)
    ensures
        r == spec_is_string_literal_start(s),
{
    s == '\'' || s == '"'
}

/// A character of the ASCII range.
pub open spec fn is_ascii_char(c: char) -> bool {
    (c as u32) < 128
}

/// `a-z` and `A-Z`.
pub open spec fn is_ascii_letter(c: char) -> bool {
    ('a' <= c && c <= 'z') || ('A' <= c && c <= 'Z')
}

/// `0-9`.
pub open spec fn is_ascii_digit(c: char) -> bool {
    '0' <= c && c <= '9'
}

/// TAB, SPACE, NO-BREAK SPACE and FORM FEED.
pub open spec fn spec_is_whitespace(c: char) -> bool {
    c == TAB || c == SPACE || c == NBSP || c == FF
}

/// LF, CR, LINE SEPARATOR and PARAGRAPH SEPARATOR.
pub open spec fn spec_is_line_terminator(c: char) -> bool {
    c == LF || c == CR || c == LS || c == PS
}

/// White space and line terminators: what separates lexemes.
pub open spec fn spec_is_blank(c: char) -> bool {
    spec_is_whitespace(c) || spec_is_line_terminator(c)
}

/// Whether the character is white space.
pub fn is_whitespace(c: char) -> (r: bool)
    ensures
        r == spec_is_whitespace(c),
{
    c == TAB || c == SPACE || c == NBSP || c == FF
}

/// Whether the character ends a line.
pub fn is_line_terminator(c: char) -> (r: bool)
    ensures
        r == spec_is_line_terminator(c),
{
    c == LF || c == CR || c == LS || c == PS
}

/// Whether the character is white space or ends a line.
pub fn is_blank(c: char) -> (r: bool)
    ensures
        r == spec_is_blank(c),
{
    is_whitespace(c) || is_line_terminator(c)
}

/// The Unicode property `XID_Start`, as the `unicode-xid` tables give it.
pub uninterp spec fn xid_start(c: char) -> bool;

/// The Unicode property `XID_Continue`, as the `unicode-xid` tables give it.
pub uninterp spec fn xid_continue(c: char) -> bool;

/// Calls `UnicodeXID::is_xid_start` of `unicode-xid`, a lookup in the
/// crate's tables. The result is taken to be a fixed function of the
/// character, named [`xid_start`]; nothing is claimed about its value.
#[verifier::external_body]
fn unicode_xid_start(c: char) -> (r: bool)
    ensures
        r == xid_start(c),
{
    UnicodeXID::is_xid_start(c)
}

/// Calls `UnicodeXID::is_xid_continue` of `unicode-xid`, a lookup in the
/// crate's tables. The result is taken to be a fixed function of the
/// character, named [`xid_continue`]; nothing is claimed about its value.
#[verifier::external_body]
fn unicode_xid_continue(c: char) -> (r: bool)
    ensures
        r == xid_continue(c),
{
    UnicodeXID::is_xid_continue(c)
}

/// Whether `c` may begin an identifier, given whether it has the property
/// `XID_Start`: `_`, `$` and the ASCII letters may; no other ASCII
/// character may; beyond ASCII the property decides.
pub open spec fn identifier_start_given(c: char, xid: bool) -> bool {
    if is_ascii_char(c) {
        c == '_' || c == '$' || is_ascii_letter(c)
    } else {
        xid
    }
}

/// Whether `c` may continue an identifier, given whether it has the
/// property `XID_Continue`: `_`, `$`, the ASCII letters and digits may; no
/// other ASCII character may; beyond ASCII the property decides, and the
/// two zero-width joiners may in any case.
pub open spec fn identifier_continue_given(c: char, xid: bool) -> bool {
    if is_ascii_char(c) {
        c == '$' || c == '_' || is_ascii_letter(c) || is_ascii_digit(c)
    } else {
        xid || c == ZWNJ || c == ZWJ
    }
}

/// A character that may begin an identifier.
pub open spec fn spec_is_identifier_start(c: char) -> bool {
    identifier_start_given(c, xid_start(c))
}

/// A character that may continue an identifier.
pub open spec fn spec_is_identifier_continue(c: char) -> bool {
    identifier_continue_given(c, xid_continue(c))
}

/// Decides whether `c` may begin an identifier from `xid`, which says
/// whether it has the property `XID_Start`.
pub fn starts_identifier(c: char, xid: bool) -> (r: bool)
    ensures
        r == identifier_start_given(c, xid),
{
    if (c as u32) < 128 {
        c == '_' || c == '$' || ('a' <= c && c <= 'z') || ('A' <= c && c <= 'Z')
    } else {
        xid
    }
}

/// Decides whether `c` may continue an identifier from `xid`, which says
/// whether it has the property `XID_Continue`.
pub fn continues_identifier(c: char, xid: bool) -> (r: bool)
    ensures
        r == identifier_continue_given(c, xid),
{
    if (c as u32) < 128 {
        c == '$' || c == '_' || ('a' <= c && c <= 'z') || ('A' <= c && c <= 'Z') || ('0' <= c && c
            <= '9')
    } else {
        xid || c == ZWNJ || c == ZWJ
    }
}

/// Whether the character may begin an identifier.
pub fn is_identifier_start(s: char) -> (r: bool)
    ensures
        r == spec_is_identifier_start(s),
{
    if (s as u32) < 128 {
        starts_identifier(s, false)
    } else {
        starts_identifier(s, unicode_xid_start(s))
    }
}

/// Whether the character may continue an identifier.
pub fn is_identifier_continue(c: char) -> (r: bool)
    ensures
        r == spec_is_identifier_continue(c),
{
    if (c as u32) < 128 {
        continues_identifier(c, false)
    } else {
        continues_identifier(c, unicode_xid_continue(c))
    }
}

/// The backslash, which opens an escape sequence.
pub open spec fn spec_is_unicode_seq_start(c: char) -> bool {
    c == '\\'
}

/// Whether the character opens an escape sequence.
pub fn is_unicode_seq_start(s: char) -> (r: bool)
    ensures
        r == spec_is_unicode_seq_start(s),
{
    s == '\\'
}

/// `0-9`, `a-f` and `A-F`.
pub open spec fn spec_is_hex_digit(c: char) -> bool {
    is_ascii_digit(c) || ('a' <= c && c <= 'f') || ('A' <= c && c <= 'F')
}

/// The value of a hexadecimal digit; meaningful where [`spec_is_hex_digit`] holds.
pub open spec fn hex_digit_value(c: char) -> nat {
    if is_ascii_digit(c) {
        (c as u32 - '0' as u32) as nat
    } else if 'a' <= c && c <= 'f' {
        (10 + c as u32 - 'a' as u32) as nat
    } else {
        (10 + c as u32 - 'A' as u32) as nat
    }
}

/// Whether the character is a hexadecimal digit.
pub fn is_hex_digit(c: char) -> (r: bool)
    ensures
        r == spec_is_hex_digit(c),
{
    ('0' <= c && c <= '9') || ('a' <= c && c <= 'f') || ('A' <= c && c <= 'F')
}

/// The value of a hexadecimal digit; any other character is refused.
pub fn hex_char_to_digit(s: char) -> (r: Result<u32, LexerError>)
    ensures
        spec_is_hex_digit(s) ==> r == Ok::<u32, LexerError>(hex_digit_value(s) as u32),
        !spec_is_hex_digit(s) ==> r == Err::<u32, LexerError>(LexerError::InvalidHexNumber),
{
    if '0' <= s && s <= '9' {
        Ok(s as u32 - '0' as u32)
    } else if 'a' <= s && s <= 'f' {
        Ok(10 + (s as u32 - 'a' as u32))
    } else if 'A' <= s && s <= 'F' {
        Ok(10 + (s as u32 - 'A' as u32))
    } else {
        Err(LexerError::InvalidHexNumber)
    }
}

/// A Unicode scalar value: a code point that is not a surrogate.
pub open spec fn is_scalar_value(v: nat) -> bool {
    v <= 0xD7FF || (0xE000 <= v && v <= 0x10FFFF)
}

/// The character for a code point, or the reason why there is none.
pub open spec fn code_point_char(v: nat) -> Result<char, LexerErrorView> {
    if v > 0x10FFFF {
        Err(LexerErrorView::UnicodeOverfow)
    } else if 0xD800 <= v && v <= 0xDFFF {
        Err(LexerErrorView::UnicodeSurrogateCodePoint)
    } else {
        Ok(v as char)
    }
}

/// Calls `char::from_u32`, which gives the character with the scalar value
/// `v` and `None` where `v` is a surrogate or lies above `0x10FFFF`.
#[verifier::external_body]
fn char_from_u32(v: u32) -> (r: Option<char>)
    ensures
        r == if is_scalar_value(v as nat) {
            Some(v as char)
        } else {
            None
        },
{
    char::from_u32(v)
}

/// View of a result whose error is a [`LexerError`].
pub open spec fn result_view<T>(r: Result<T, LexerError>) -> Result<T, LexerErrorView> {
    match r {
        Ok(v) => Ok(v),
        Err(e) => Err(e@),
    }
}

/// The character for a code point; a code point above `0x10FFFF` and a
/// surrogate are refused.
pub fn digit_to_char(s: u32) -> (r: Result<char, LexerError>)
    ensures
        result_view(r) == code_point_char(s as nat),
{
    if s > 0x10FFFF {
        return Err(LexerError::UnicodeOverfow);
    }
    if s >= 0xd800 && s <= 0xdfff {
        return Err(LexerError::UnicodeSurrogateCodePoint);
    }
    match char_from_u32(s) {
        Some(c) => Ok(c),
        None => Err(LexerError::InvalidUnicodeSequence),
    }
}

/// The category of an identifier-shaped text: the reserved word or literal
/// keyword that it spells, else `Identifier`.
pub open spec fn keyword_category(s: Seq<char>) -> TokenType {
    if s == "break"@ {
        TokenType::BREAK
    } else if s == "switch"@ {
        TokenType::SWITCH
    } else if s == "case"@ {
        TokenType::CASE
    } else if s == "continue"@ {
        TokenType::CONTINUE
    } else if s == "for"@ {
        TokenType::FOR
    } else if s == "let"@ {
        TokenType::LET
    } else if s == "var"@ {
        TokenType::VAR
    } else if s == "function"@ {
        TokenType::FUNCTION
    } else if s == "this"@ {
        TokenType::THIS
    } else if s == "catch"@ {
        TokenType::CATCH
    } else if s == "try"@ {
        TokenType::TRY
    } else if s == "finally"@ {
        TokenType::FINALLY
    } else if s == "throw"@ {
        TokenType::THROW
    } else if s == "with"@ {
        TokenType::WITH
    } else if s == "while"@ {
        TokenType::WHILE
    } else if s == "do"@ {
        TokenType::DO
    } else if s == "if"@ {
        TokenType::IF
    } else if s == "else"@ {
        TokenType::ELSE
    } else if s == "return"@ {
        TokenType::RETURN
    } else if s == "default"@ {
        TokenType::DEFAULT
    } else if s == "delete"@ {
        TokenType::DELETE
    } else if s == "typeof"@ {
        TokenType::TYPEOF
    } else if s == "instanceof"@ {
        TokenType::INSTANCEOF
    } else if s == "new"@ {
        TokenType::NEW
    } else if s == "in"@ {
        TokenType::IN
    } else if s == "false"@ {
        TokenType::FALSE_LITERAL
    } else if s == "true"@ {
        TokenType::TRUE_LITERAL
    } else if s == "null"@ {
        TokenType::NULL_LITERAL
    } else if s == "undefined"@ {
        TokenType::UNDEFINED_LITERAL
    } else {
        TokenType::Identifier
    }
}

/// The category of an identifier-shaped text.
pub fn try_keyword(s: &str) -> (r: TokenType)
    ensures
        r == keyword_category(s@),
{
    if str_eq(s, "break") {
        TokenType::BREAK
    } else if str_eq(s, "switch") {
        TokenType::SWITCH
    } else if str_eq(s, "case") {
        TokenType::CASE
    } else if str_eq(s, "continue") {
        TokenType::CONTINUE
    } else if str_eq(s, "for") {
        TokenType::FOR
    } else if str_eq(s, "let") {
        TokenType::LET
    } else if str_eq(s, "var") {
        TokenType::VAR
    } else if str_eq(s, "function") {
        TokenType::FUNCTION
    } else if str_eq(s, "this") {
        TokenType::THIS
    } else if str_eq(s, "catch") {
        TokenType::CATCH
    } else if str_eq(s, "try") {
        TokenType::TRY
    } else if str_eq(s, "finally") {
        TokenType::FINALLY
    } else if str_eq(s, "throw") {
        TokenType::THROW
    } else if str_eq(s, "with") {
        TokenType::WITH
    } else if str_eq(s, "while") {
        TokenType::WHILE
    } else if str_eq(s, "do") {
        TokenType::DO
    } else if str_eq(s, "if") {
        TokenType::IF
    } else if str_eq(s, "else") {
        TokenType::ELSE
    } else if str_eq(s, "return") {
        TokenType::RETURN
    } else if str_eq(s, "default") {
        TokenType::DEFAULT
    } else if str_eq(s, "delete") {
        TokenType::DELETE
    } else if str_eq(s, "typeof") {
        TokenType::TYPEOF
    } else if str_eq(s, "instanceof") {
        TokenType::INSTANCEOF
    } else if str_eq(s, "new") {
        TokenType::NEW
    } else if str_eq(s, "in") {
        TokenType::IN
    } else if str_eq(s, "false") {
        TokenType::FALSE_LITERAL
    } else if str_eq(s, "true") {
        TokenType::TRUE_LITERAL
    } else if str_eq(s, "null") {
        TokenType::NULL_LITERAL
    } else if str_eq(s, "undefined") {
        TokenType::UNDEFINED_LITERAL
    } else {
        TokenType::Identifier
    }
}

} // verus!
