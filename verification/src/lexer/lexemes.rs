//! What a request for a token gives, stated lexeme by lexeme: for each
//! kind of lexeme, the shape of the text at the cursor determines the
//! token and the place where the cursor comes to rest.

use crate::input::{spec_is_line_break, CodeView};
use crate::lexer::error::LexerErrorView;
use crate::lexer::grammar::{
    decimal_digits, digit_run, escape, finish_scanned, finish_scanned_number, fixed_hex, hex_run,
    identifier_body, lex, run_has_high_digit, skip_blank, starts_lexeme, stray_point, string_body,
    trailing_check, unicode_escape, Counted, Decoded, Lexed, LexerView,
};
use crate::lexer::token::{
    code_point_char, hex_digit_value, is_ascii_digit, keyword_category, spec_is_blank,
    spec_is_hex_digit, spec_is_identifier_continue, spec_is_identifier_start, spec_is_numeric_token,
    spec_is_string_literal_start, NumericValue, TokenType, TokenView,
};
use crate::lexer::util::{
    all_radix_digits, decimal_value, fraction_part, integer_part, integer_value, is_radix_digit,
    kept_digits, lemma_decimal_text_without_point, lemma_integer_value_exact, lemma_kept_digits,
    lemma_point_index, lemma_radix_fold_concat, lemma_radix_fold_prefix, numeric_value, radix_fold,
    radix_value,
};
use vstd::prelude::*;

verus! {

// ---------------------------------------------------------------------
// Consuming several characters
// ---------------------------------------------------------------------
/// The state in which the next `n` characters are consumed and `text` is
/// appended to the accumulation buffer.
pub open spec fn after(s: LexerView, n: nat, text: Seq<char>) -> LexerView {
    LexerView { code: s.code.skip(n), cache: s.cache + text }
}

/// The cursor `n` characters further on the same line.
pub open spec fn moved_right(c: CodeView, n: nat) -> CodeView {
    CodeView { rest: c.rest.skip(n as int), column: c.column + n, ..c }
}

/// Consuming `n` characters is consuming one and then `n - 1`.
pub proof fn lemma_skip_front(c: CodeView, n: nat)
    requires
        n >= 1,
    ensures
        c.skip(n) == c.step().skip((n - 1) as nat),
    decreases n,
{
    if n > 1 {
        lemma_skip_front(c, (n - 1) as nat);
        assert(c.step().skip((n - 1) as nat) == c.step().skip((n - 2) as nat).step());
    } else {
        assert(c.skip(0) == c);
        assert(c.step().skip(0) == c.step());
    }
}

/// Consuming `n` characters that hold no line break moves the cursor to
/// the right by `n` columns.
pub proof fn lemma_skip_on_one_line(c: CodeView, n: nat)
    requires
        n <= c.rest.len(),
        forall|i: int| 0 <= i < n ==> !spec_is_line_break(c.rest[i]),
    ensures
        c.skip(n) == moved_right(c, n),
    decreases n,
{
    if n == 0 {
        assert(c.rest.skip(0) =~= c.rest);
    } else {
        lemma_skip_on_one_line(c, (n - 1) as nat);
        let p = c.skip((n - 1) as nat);
        assert(p.head() == c.rest[n - 1]);
        assert(p.rest.drop_first() =~= c.rest.skip(n as int));
    }
}

/// Consuming `n` characters leaves the text behind them.
pub proof fn lemma_skip_rest(c: CodeView, n: nat)
    requires
        n <= c.rest.len(),
    ensures
        c.skip(n).rest == c.rest.skip(n as int),
        c.skip(n).column_start == c.column_start,
        c.skip(n).line >= c.line,
    decreases n,
{
    if n == 0 {
        assert(c.rest.skip(0) =~= c.rest);
    } else {
        lemma_skip_rest(c, (n - 1) as nat);
        let p = c.skip((n - 1) as nat);
        assert(p.rest.drop_first() =~= c.rest.skip(n as int));
    }
}

/// Recording the start of a lexeme and consuming characters can be done
/// in either order.
pub proof fn lemma_skip_mark(c: CodeView, n: nat)
    ensures
        c.mark().skip(n) == (CodeView { column_start: c.column, ..c.skip(n) }),
    decreases n,
{
    if n > 0 {
        lemma_skip_mark(c, (n - 1) as nat);
    }
}

// ---------------------------------------------------------------------
// String literals
// ---------------------------------------------------------------------
/// A character that stands for itself inside a string literal that is
/// delimited by `quote`.
pub open spec fn is_plain_in_string(c: char, quote: char) -> bool {
    c != quote && c != '\\' && !spec_is_line_break(c)
}

/// Plain characters of a string literal are accumulated as they are.
pub proof fn lemma_string_run(t: LexerView, quote: char, n: nat)
    requires
        n <= t.code.rest.len(),
        forall|i: int| 0 <= i < n ==> is_plain_in_string(t.code.rest[i], quote),
    ensures
        string_body(t, quote) == string_body(after(t, n, t.code.rest.take(n as int)), quote),
    decreases n,
{
    if n == 0 {
        assert(t.cache + t.code.rest.take(0) =~= t.cache);
    } else {
        let u = t.shift();
        assert forall|i: int| 0 <= i < n - 1 implies is_plain_in_string(
            u.code.rest[i],
            quote,
        ) by {
            assert(u.code.rest[i] == t.code.rest[i + 1]);
        }
        lemma_string_run(u, quote, (n - 1) as nat);
        lemma_skip_front(t.code, n);
        assert(u.cache + u.code.rest.take(n - 1) =~= t.cache + t.code.rest.take(n as int));
    }
}

/// The scan of a string literal that opens with a quote and `n` plain
/// characters goes on behind them, with those characters in the buffer:
/// what the request gives is what the rest of the literal gives from
/// there.
pub proof fn lemma_string_opening(s: LexerView, n: nat) -> (u: LexerView)
    requires
        s.code.rest.len() >= n + 1,
        spec_is_string_literal_start(s.code.rest[0]),
        forall|i: int| 1 <= i <= n ==> is_plain_in_string(s.code.rest[i], s.code.rest[0]),
    ensures
        u == (LexerView {
            code: CodeView { column_start: s.code.column, ..moved_right(s.code, n + 1) },
            cache: s.code.rest.subrange(1, n as int + 1),
        }),
        lex(s).result == finish_scanned(
            string_body(u, s.code.rest[0]),
            TokenType::STRING_LITERAL,
        ).result,
        lex(s).state == finish_scanned(
            string_body(u, s.code.rest[0]),
            TokenType::STRING_LITERAL,
        ).state.clear(),
{
    let quote = s.code.rest[0];
    let rest = s.code.rest;
    assert(skip_blank(s.code) == s.code);
    let m = LexerView { code: s.code.mark(), cache: Seq::empty() };
    let t = m.step();
    assert(t.code.rest =~= rest.skip(1));
    assert forall|i: int| 0 <= i < n implies is_plain_in_string(t.code.rest[i], quote) by {
        assert(t.code.rest[i] == rest[i + 1]);
    }
    lemma_string_run(t, quote, n);
    let u = after(t, n, t.code.rest.take(n as int));
    lemma_skip_on_one_line(t.code, n);
    assert(u.cache =~= rest.subrange(1, n as int + 1));
    assert(u.code.rest =~= rest.skip(n as int + 1));
    u
}

/// A string literal without escape sequences: an opening quote, `n`
/// characters that are neither that quote nor a backslash nor a line
/// break, and the same quote again. The token's text is what stands
/// between the quotes, and the cursor comes to rest behind the closing
/// quote.
pub proof fn law_plain_string(s: LexerView, n: nat)
    requires
        s.code.rest.len() >= n + 2,
        spec_is_string_literal_start(s.code.rest[0]),
        forall|i: int| 1 <= i <= n ==> is_plain_in_string(s.code.rest[i], s.code.rest[0]),
        s.code.rest[n as int + 1] == s.code.rest[0],
    ensures
        lex(s).result == Ok::<TokenView, LexerErrorView>(
            TokenView {
                value: s.code.rest.subrange(1, n as int + 1),
                number: None,
                category: TokenType::STRING_LITERAL,
                line: s.code.line,
                column: s.code.column,
            },
        ),
        lex(s).state == (LexerView {
            code: CodeView { column_start: s.code.column, ..moved_right(s.code, n + 2) },
            cache: Seq::empty(),
        }),
{
    let quote = s.code.rest[0];
    let rest = s.code.rest;
    let u = lemma_string_opening(s, n);
    assert(u.code.head() == quote);
    assert(string_body(u, quote) == u.step().ok());
    assert(u.step().code.rest =~= rest.skip(n as int + 2));
}

/// A string literal that a raw line break cuts short: an opening quote,
/// `n` characters that are neither that quote nor a backslash nor a line
/// break, and a line break. The request fails, and the cursor comes to
/// rest at the start of the line behind the break.
pub proof fn law_string_cut_by_line_break(s: LexerView, n: nat)
    requires
        s.code.rest.len() >= n + 2,
        spec_is_string_literal_start(s.code.rest[0]),
        forall|i: int| 1 <= i <= n ==> is_plain_in_string(s.code.rest[i], s.code.rest[0]),
        spec_is_line_break(s.code.rest[n as int + 1]),
    ensures
        lex(s).result == Err::<TokenView, LexerErrorView>(LexerErrorView::InvalidString),
        lex(s).state == (LexerView {
            code: CodeView {
                rest: s.code.rest.skip(n as int + 2),
                line: s.code.line + 1,
                column: 1,
                column_start: s.code.column,
            },
            cache: Seq::empty(),
        }),
{
    let quote = s.code.rest[0];
    let rest = s.code.rest;
    let u = lemma_string_opening(s, n);
    assert(u.code.head() == rest[n as int + 1]);
    assert(string_body(u, quote) == u.step().fail(LexerErrorView::InvalidString));
    assert(u.step().code.rest =~= rest.skip(n as int + 2));
}

/// A string literal that the end of the text cuts short: an opening
/// quote and `n` characters that are neither that quote nor a backslash
/// nor a line break, behind which the text ends. The request fails.
pub proof fn law_string_cut_by_end(s: LexerView, n: nat)
    requires
        s.code.rest.len() == n + 1,
        spec_is_string_literal_start(s.code.rest[0]),
        forall|i: int| 1 <= i <= n ==> is_plain_in_string(s.code.rest[i], s.code.rest[0]),
    ensures
        lex(s).result == Err::<TokenView, LexerErrorView>(LexerErrorView::InvalidString),
        lex(s).state == (LexerView {
            code: CodeView { column_start: s.code.column, ..moved_right(s.code, n + 1) },
            cache: Seq::empty(),
        }),
{
    let quote = s.code.rest[0];
    let rest = s.code.rest;
    let u = lemma_string_opening(s, n);
    assert(u.code.rest =~= rest.skip(n as int + 1));
    assert(u.at_end());
}

// ---------------------------------------------------------------------
// Identifiers and keywords
// ---------------------------------------------------------------------
/// Identifier characters are accumulated as they are.
pub proof fn lemma_identifier_run(t: LexerView, n: nat)
    requires
        n <= t.code.rest.len(),
        forall|i: int| 0 <= i < n ==> spec_is_identifier_continue(t.code.rest[i]),
    ensures
        identifier_body(t) == identifier_body(after(t, n, t.code.rest.take(n as int))),
    decreases n,
{
    if n == 0 {
        assert(t.cache + t.code.rest.take(0) =~= t.cache);
    } else {
        let u = t.shift();
        assert forall|i: int| 0 <= i < n - 1 implies spec_is_identifier_continue(
            u.code.rest[i],
        ) by {
            assert(u.code.rest[i] == t.code.rest[i + 1]);
        }
        lemma_identifier_run(u, (n - 1) as nat);
        lemma_skip_front(t.code, n);
        assert(u.cache + u.code.rest.take(n - 1) =~= t.cache + t.code.rest.take(n as int));
    }
}

/// An identifier without escape sequences: a character that begins an
/// identifier, followed by identifier characters up to the `n`-th
/// character of the text, behind which the text ends or goes on with a
/// character that is neither an identifier character nor a backslash. The
/// token's text is those `n` characters; its category is that of the
/// reserved word they spell, if they spell one.
pub proof fn law_plain_identifier(s: LexerView, n: nat)
    requires
        1 <= n <= s.code.rest.len(),
        !spec_is_blank(s.code.rest[0]),
        spec_is_identifier_start(s.code.rest[0]),
        forall|i: int| 1 <= i < n ==> spec_is_identifier_continue(s.code.rest[i]),
        n < s.code.rest.len() ==> !spec_is_identifier_continue(s.code.rest[n as int])
            && s.code.rest[n as int] != '\\',
    ensures
        lex(s).result == Ok::<TokenView, LexerErrorView>(
            TokenView {
                value: s.code.rest.take(n as int),
                number: None,
                category: keyword_category(s.code.rest.take(n as int)),
                line: s.code.skip(n).line,
                column: s.code.column,
            },
        ),
        lex(s).state == (LexerView { code: s.code.mark().skip(n), cache: Seq::empty() }),
        (forall|i: int| 0 <= i < n ==> !spec_is_line_break(s.code.rest[i])) ==> s.code.mark().skip(
            n,
        ) == (CodeView { column_start: s.code.column, ..moved_right(s.code, n) }),
{
    let rest = s.code.rest;
    assert(skip_blank(s.code) == s.code);
    let m = LexerView { code: s.code.mark(), cache: Seq::empty() };
    let t = m.shift();
    assert(t.code.rest =~= rest.skip(1));
    assert forall|i: int| 0 <= i < n - 1 implies spec_is_identifier_continue(t.code.rest[i]) by {
        assert(t.code.rest[i] == rest[i + 1]);
    }
    lemma_identifier_run(t, (n - 1) as nat);
    let u = after(t, (n - 1) as nat, t.code.rest.take(n - 1));
    lemma_skip_front(m.code, n);
    lemma_skip_rest(m.code, n);
    lemma_skip_mark(s.code, n);
    assert(u.cache =~= rest.take(n as int));
    assert(u.code.rest == rest.skip(n as int));
    if n < rest.len() {
        assert(u.code.head() == rest[n as int]);
    }
    assert(identifier_body(u) == u.ok());
    assert(!spec_is_numeric_token(keyword_category(u.cache)));
    if forall|i: int| 0 <= i < n ==> !spec_is_line_break(s.code.rest[i]) {
        lemma_skip_on_one_line(s.code, n);
    }
}

// ---------------------------------------------------------------------
// Numeric literals
// ---------------------------------------------------------------------
/// A digit of the given radix or a `_` separator.
pub open spec fn is_digit_or_separator(c: char, radix: nat) -> bool {
    is_radix_digit(c, radix) || c == '_'
}

/// The text without its `_` separators.
pub open spec fn without_separators(s: Seq<char>) -> Seq<char>
    decreases s.len(),
{
    if s.len() == 0 {
        s
    } else if s[0] == '_' {
        without_separators(s.drop_first())
    } else {
        seq![s[0]] + without_separators(s.drop_first())
    }
}

/// What is left of digits and separators is digits.
pub proof fn lemma_without_separators(run: Seq<char>, radix: nat)
    requires
        radix <= 16,
        forall|i: int| 0 <= i < run.len() ==> is_digit_or_separator(run[i], radix),
    ensures
        all_radix_digits(without_separators(run), radix),
        without_separators(run).len() <= run.len(),
    decreases run.len(),
{
    if run.len() > 0 {
        let tail = run.drop_first();
        assert forall|i: int| 0 <= i < tail.len() implies is_digit_or_separator(
            tail[i],
            radix,
        ) by {
            assert(tail[i] == run[i + 1]);
        }
        lemma_without_separators(tail, radix);
        let w = without_separators(run);
        assert forall|j: int| 0 <= j < w.len() implies is_radix_digit(#[trigger] w[j], radix) by {
            if run[0] != '_' && j > 0 {
                assert(w[j] == without_separators(tail)[j - 1]);
            }
        }
    }
}

/// Digits and separators are no line breaks.
pub proof fn lemma_digits_on_one_line(c: CodeView, n: nat, radix: nat)
    requires
        n <= c.rest.len(),
        forall|i: int| 0 <= i < n ==> is_digit_or_separator(c.rest[i], radix),
    ensures
        c.skip(n) == moved_right(c, n),
{
    lemma_skip_on_one_line(c, n);
}

/// Digits are accumulated and separators dropped.
pub proof fn lemma_digit_run(t: LexerView, radix: nat, n: nat)
    requires
        n <= t.code.rest.len(),
        forall|i: int| 0 <= i < n ==> is_digit_or_separator(t.code.rest[i], radix),
    ensures
        digit_run(t, radix) == digit_run(
            after(t, n, without_separators(t.code.rest.take(n as int))),
            radix,
        ),
    decreases n,
{
    if n == 0 {
        assert(t.cache + without_separators(t.code.rest.take(0)) =~= t.cache);
    } else {
        let c = t.code.rest[0];
        let u = if c == '_' {
            t.step()
        } else {
            t.shift()
        };
        assert forall|i: int| 0 <= i < n - 1 implies is_digit_or_separator(
            u.code.rest[i],
            radix,
        ) by {
            assert(u.code.rest[i] == t.code.rest[i + 1]);
        }
        lemma_digit_run(u, radix, (n - 1) as nat);
        lemma_skip_front(t.code, n);
        assert(t.code.rest.take(n as int).drop_first() =~= u.code.rest.take(n - 1));
        assert(u.cache + without_separators(u.code.rest.take(n - 1)) =~= t.cache
            + without_separators(t.code.rest.take(n as int)));
    }
}

/// Decimal digits are accumulated and separators dropped.
pub proof fn lemma_decimal_run(t: LexerView, seen_point: bool, radix_prefix: bool, n: nat)
    requires
        n <= t.code.rest.len(),
        forall|i: int| 0 <= i < n ==> is_digit_or_separator(t.code.rest[i], 10),
    ensures
        decimal_digits(t, seen_point, radix_prefix) == decimal_digits(
            after(t, n, without_separators(t.code.rest.take(n as int))),
            seen_point,
            radix_prefix,
        ),
    decreases n,
{
    if n == 0 {
        assert(t.cache + without_separators(t.code.rest.take(0)) =~= t.cache);
    } else {
        let c = t.code.rest[0];
        let u = if c == '_' {
            t.step()
        } else {
            t.shift()
        };
        assert forall|i: int| 0 <= i < n - 1 implies is_digit_or_separator(
            u.code.rest[i],
            10,
        ) by {
            assert(u.code.rest[i] == t.code.rest[i + 1]);
        }
        lemma_decimal_run(u, seen_point, radix_prefix, (n - 1) as nat);
        lemma_skip_front(t.code, n);
        assert(t.code.rest.take(n as int).drop_first() =~= u.code.rest.take(n - 1));
        assert(u.cache + without_separators(u.code.rest.take(n - 1)) =~= t.cache
            + without_separators(t.code.rest.take(n as int)));
    }
}

/// Whether the letter selects a radix behind a leading `0`.
pub open spec fn is_radix_prefix(c: char) -> bool {
    c == 'o' || c == 'O' || c == 'b' || c == 'B' || c == 'x' || c == 'X'
}

/// The radix that the letter behind a leading `0` selects.
pub open spec fn prefix_radix(c: char) -> nat {
    if c == 'o' || c == 'O' {
        8
    } else if c == 'b' || c == 'B' {
        2
    } else {
        16
    }
}

/// The category that the letter behind a leading `0` selects.
pub open spec fn prefix_category(c: char) -> TokenType {
    if c == 'o' || c == 'O' {
        TokenType::NUMERIC_LITERAL_OCTAL
    } else if c == 'b' || c == 'B' {
        TokenType::NUMERIC_LITERAL_BINARY
    } else {
        TokenType::NUMERIC_LITERAL_HEX
    }
}

/// Whether the character `at` of the text offends behind a numeric
/// literal: it begins an identifier or is a digit.
pub open spec fn offends_behind_number(rest: Seq<char>, at: int) -> bool {
    at < rest.len() && (spec_is_identifier_start(rest[at]) || is_ascii_digit(rest[at]))
}

/// The state in which the first `n` characters of the lexeme at `s`, which
/// hold no line break, are consumed and `text` is in the buffer.
pub open spec fn scanned(s: LexerView, n: nat, text: Seq<char>) -> LexerView {
    LexerView {
        code: CodeView { column_start: s.code.column, ..moved_right(s.code, n) },
        cache: text,
    }
}

/// What a request gives whose lexeme is a numeric literal of category
/// `tp`, from the state `u` in which its digits are in the buffer: what
/// follows the literal is checked and the token finished.
pub open spec fn number_outcome(u: LexerView, tp: TokenType) -> Lexed {
    let l = finish_scanned_number(trailing_check(u), tp);
    Lexed { state: l.state.clear(), result: l.result }
}

/// The token of a numeric literal: its text is what the buffer holds and
/// its value that of the text. A character that begins an identifier, or
/// a digit, must not follow.
pub proof fn lemma_number_outcome(u: LexerView, tp: TokenType)
    requires
        numeric_value(u.cache, tp) is Some,
    ensures
        number_outcome(u, tp).state == u.clear(),
        number_outcome(u, tp).result == if offends_behind_number(u.code.rest, 0) {
            Err::<TokenView, LexerErrorView>(
                LexerErrorView::UnexpectedToken(seq![u.code.rest[0]]),
            )
        } else {
            Ok(
                TokenView {
                    value: u.cache,
                    number: numeric_value(u.cache, tp),
                    category: tp,
                    line: u.code.line,
                    column: u.code.column_start,
                },
            )
        },
{
}

/// The token for the digits `text` of an integer literal of the given
/// radix. Its value is that of the digits; where they do not fit in 64
/// bits it holds the leading digits that fit and counts the others.
pub open spec fn integer_token(
    text: Seq<char>,
    radix: nat,
    category: TokenType,
    line: nat,
    column: nat,
) -> TokenView {
    TokenView {
        value: text,
        number: integer_value(text, radix),
        category: category,
        line: line,
        column: column,
    }
}

/// The scan of a literal with a radix prefix: the prefix and the digits
/// are consumed and the digits are in the buffer.
pub proof fn lemma_prefixed_scan(s: LexerView, n: nat)
    requires
        s.code.rest.len() >= n + 2,
        s.code.rest[0] == '0',
        is_radix_prefix(s.code.rest[1]),
        forall|i: int|
            2 <= i < n + 2 ==> is_digit_or_separator(
                s.code.rest[i],
                prefix_radix(s.code.rest[1]),
            ),
        n + 2 < s.code.rest.len() ==> !is_digit_or_separator(
            s.code.rest[n as int + 2],
            prefix_radix(s.code.rest[1]),
        ),
    ensures
        lex(s) == number_outcome(
            scanned(s, n + 2, without_separators(s.code.rest.subrange(2, n as int + 2))),
            prefix_category(s.code.rest[1]),
        ),
{
    let rest = s.code.rest;
    let radix = prefix_radix(rest[1]);
    assert(skip_blank(s.code) == s.code);
    let m = LexerView { code: s.code.mark(), cache: Seq::empty() };
    let z = m.step();
    assert(z.code.rest =~= rest.skip(1));
    let t = z.step();
    assert(t.code.rest =~= rest.skip(2));
    assert forall|i: int| 0 <= i < n implies is_digit_or_separator(t.code.rest[i], radix) by {
        assert(t.code.rest[i] == rest[i + 2]);
    }
    lemma_digit_run(t, radix, n);
    lemma_digits_on_one_line(t.code, n, radix);
    let run = t.code.rest.take(n as int);
    assert(run =~= rest.subrange(2, n as int + 2));
    let u = after(t, n, without_separators(run));
    assert(u.cache =~= without_separators(run));
    assert(u.code.rest =~= rest.skip(n as int + 2));
    if n + 2 < rest.len() {
        assert(u.code.head() == rest[n as int + 2]);
    }
    assert(digit_run(u, radix) == u);
}

/// A literal with a radix prefix: `0`, one of the letters `o`, `b`, `x` in
/// either case, and `n` digits of that radix or separators, behind which
/// the text ends or goes on with another character. A character that
/// begins an identifier, or a digit, must not follow. The token's text is
/// the digits without prefix and separators, and its value is theirs in
/// the radix of the prefix, however many they are.
pub proof fn law_prefixed_literal(s: LexerView, n: nat)
    requires
        s.code.rest.len() >= n + 2,
        s.code.rest[0] == '0',
        is_radix_prefix(s.code.rest[1]),
        forall|i: int|
            2 <= i < n + 2 ==> is_digit_or_separator(
                s.code.rest[i],
                prefix_radix(s.code.rest[1]),
            ),
        n + 2 < s.code.rest.len() ==> !is_digit_or_separator(
            s.code.rest[n as int + 2],
            prefix_radix(s.code.rest[1]),
        ),
    ensures
        all_radix_digits(
            without_separators(s.code.rest.subrange(2, n as int + 2)),
            prefix_radix(s.code.rest[1]),
        ),
        lex(s).result == if offends_behind_number(s.code.rest, n as int + 2) {
            Err(LexerErrorView::UnexpectedToken(seq![s.code.rest[n as int + 2]]))
        } else {
            Ok(
                integer_token(
                    without_separators(s.code.rest.subrange(2, n as int + 2)),
                    prefix_radix(s.code.rest[1]),
                    prefix_category(s.code.rest[1]),
                    s.code.line,
                    s.code.column,
                ),
            )
        },
        lex(s).state == scanned(s, n + 2, Seq::empty()),
{
    let rest = s.code.rest;
    let text = without_separators(rest.subrange(2, n as int + 2));
    let u = scanned(s, n + 2, text);
    lemma_prefixed_scan(s, n);
    lemma_without_separators(rest.subrange(2, n as int + 2), prefix_radix(rest[1]));
    lemma_number_outcome(u, prefix_category(rest[1]));
    if n + 2 < rest.len() {
        assert(u.code.rest[0] == rest[n as int + 2]);
    }
}

/// The scan of a decimal literal without a decimal point: the digits are
/// consumed and are in the buffer.
pub proof fn lemma_decimal_integer_scan(s: LexerView, n: nat)
    requires
        1 <= n <= s.code.rest.len(),
        '1' <= s.code.rest[0] <= '9',
        forall|i: int| 0 <= i < n ==> is_digit_or_separator(s.code.rest[i], 10),
        n < s.code.rest.len() ==> !is_digit_or_separator(s.code.rest[n as int], 10)
            && s.code.rest[n as int] != '.',
    ensures
        lex(s) == number_outcome(
            scanned(s, n, without_separators(s.code.rest.take(n as int))),
            TokenType::NUMERIC_LITERAL_DECIMAL,
        ),
{
    let rest = s.code.rest;
    assert(skip_blank(s.code) == s.code);
    let m = LexerView { code: s.code.mark(), cache: Seq::empty() };
    lemma_decimal_run(m, false, false, n);
    lemma_digits_on_one_line(m.code, n, 10);
    let text = without_separators(rest.take(n as int));
    let u = after(m, n, text);
    assert(u.cache =~= text);
    if n < rest.len() {
        assert(u.code.head() == rest[n as int]);
    }
    assert(decimal_digits(u, false, false) == trailing_check(u));
}

/// A decimal literal without a decimal point: a digit from `1` to `9` and
/// further digits or separators, `n` characters in all, behind which the
/// text ends or goes on with a character that is no digit, separator or
/// decimal point. A character that begins an identifier must not follow.
/// The token's text is the digits and its value theirs, however many
/// they are.
pub proof fn law_decimal_integer(s: LexerView, n: nat)
    requires
        1 <= n <= s.code.rest.len(),
        '1' <= s.code.rest[0] <= '9',
        forall|i: int| 0 <= i < n ==> is_digit_or_separator(s.code.rest[i], 10),
        n < s.code.rest.len() ==> !is_digit_or_separator(s.code.rest[n as int], 10)
            && s.code.rest[n as int] != '.',
    ensures
        all_radix_digits(without_separators(s.code.rest.take(n as int)), 10),
        lex(s).result == if offends_behind_number(s.code.rest, n as int) {
            Err(LexerErrorView::UnexpectedToken(seq![s.code.rest[n as int]]))
        } else {
            Ok(
                integer_token(
                    without_separators(s.code.rest.take(n as int)),
                    10,
                    TokenType::NUMERIC_LITERAL_DECIMAL,
                    s.code.line,
                    s.code.column,
                ),
            )
        },
        lex(s).state == scanned(s, n, Seq::empty()),
{
    let rest = s.code.rest;
    let text = without_separators(rest.take(n as int));
    let u = scanned(s, n, text);
    lemma_decimal_integer_scan(s, n);
    lemma_without_separators(rest.take(n as int), 10);
    lemma_decimal_text_without_point(text);
    lemma_number_outcome(u, TokenType::NUMERIC_LITERAL_DECIMAL);
    if n < rest.len() {
        assert(u.code.rest[0] == rest[n as int]);
    }
}

/// The scan of a decimal literal with a decimal point: digits and point
/// are consumed and are in the buffer. A second decimal point behind
/// them is refused; otherwise the literal is finished.
pub proof fn lemma_decimal_fraction_scan(s: LexerView, n: nat, m: nat)
    requires
        1 <= n,
        n + 1 + m <= s.code.rest.len(),
        '1' <= s.code.rest[0] <= '9',
        forall|i: int| 0 <= i < n ==> is_digit_or_separator(s.code.rest[i], 10),
        s.code.rest[n as int] == '.',
        forall|i: int| n + 1 <= i < n + 1 + m ==> is_digit_or_separator(s.code.rest[i], 10),
        n + 1 + m < s.code.rest.len() ==> !is_digit_or_separator(
            s.code.rest[n as int + 1 + m as int],
            10,
        ),
    ensures
        ({
            let rest = s.code.rest;
            let end = n as int + 1 + m as int;
            let text = without_separators(rest.take(n as int)) + seq!['.'] + without_separators(
                rest.subrange(n as int + 1, end),
            );
            let u = scanned(s, end as nat, text);
            lex(s) == if end < rest.len() && rest[end] == '.' {
                Lexed {
                    state: u.clear(),
                    result: Err(LexerErrorView::UnexpectedToken(stray_point())),
                }
            } else {
                number_outcome(u, TokenType::NUMERIC_LITERAL_DECIMAL)
            }
        }),
{
    let rest = s.code.rest;
    let end = n as int + 1 + m as int;
    let text = without_separators(rest.take(n as int)) + seq!['.'] + without_separators(
        rest.subrange(n as int + 1, end),
    );
    assert(skip_blank(s.code) == s.code);
    let m0 = LexerView { code: s.code.mark(), cache: Seq::empty() };
    lemma_fraction_run(m0, n, m);
    let u = LexerView { code: moved_right(m0.code, end as nat), cache: m0.cache + text };
    assert(u.cache =~= text);
    if end < rest.len() {
        assert(u.code.head() == rest[end]);
    }
    if !(end < rest.len() && rest[end] == '.') {
        assert(decimal_digits(u, true, false) == trailing_check(u));
    }
}

/// A decimal literal with a decimal point: `n` characters as in a literal
/// without one, a decimal point, and `m` further digits or separators,
/// behind which the text ends or goes on with another character. A second
/// decimal point must not follow, nor a character that begins an
/// identifier. The token's text is the digits with the point between
/// them, and its value is that of this text, which
/// [`lemma_decimal_value_of_parts`] spells out.
pub proof fn law_decimal_fraction(s: LexerView, n: nat, m: nat)
    requires
        1 <= n,
        n + 1 + m <= s.code.rest.len(),
        '1' <= s.code.rest[0] <= '9',
        forall|i: int| 0 <= i < n ==> is_digit_or_separator(s.code.rest[i], 10),
        s.code.rest[n as int] == '.',
        forall|i: int| n + 1 <= i < n + 1 + m ==> is_digit_or_separator(s.code.rest[i], 10),
        n + 1 + m < s.code.rest.len() ==> !is_digit_or_separator(
            s.code.rest[n as int + 1 + m as int],
            10,
        ),
    ensures
        ({
            let rest = s.code.rest;
            let end = n as int + 1 + m as int;
            let whole = without_separators(rest.take(n as int));
            let fraction = without_separators(rest.subrange(n as int + 1, end));
            let text = whole + seq!['.'] + fraction;
            &&& all_radix_digits(whole, 10)
            &&& all_radix_digits(fraction, 10)
            &&& decimal_value(text) is Some
            &&& lex(s).result == if end < rest.len() && rest[end] == '.' {
                Err(LexerErrorView::UnexpectedToken(stray_point()))
            } else if offends_behind_number(rest, end) {
                Err(LexerErrorView::UnexpectedToken(seq![rest[end]]))
            } else {
                Ok(
                    TokenView {
                        value: text,
                        number: decimal_value(text),
                        category: TokenType::NUMERIC_LITERAL_DECIMAL,
                        line: s.code.line,
                        column: s.code.column,
                    },
                )
            }
            &&& lex(s).state == scanned(s, end as nat, Seq::empty())
        }),
{
    let rest = s.code.rest;
    let end = n as int + 1 + m as int;
    let whole = without_separators(rest.take(n as int));
    let fraction = without_separators(rest.subrange(n as int + 1, end));
    let u = scanned(s, end as nat, whole + seq!['.'] + fraction);
    lemma_decimal_fraction_scan(s, n, m);
    lemma_without_separators(rest.take(n as int), 10);
    lemma_without_separators(rest.subrange(n as int + 1, end), 10);
    lemma_decimal_value_of_parts(whole, fraction);
    lemma_number_outcome(u, TokenType::NUMERIC_LITERAL_DECIMAL);
    if end < rest.len() {
        assert(u.code.rest[0] == rest[end]);
    }
}

/// Digits, a decimal point and further digits are accumulated with the
/// point between them, and the separators dropped.
pub proof fn lemma_fraction_run(t: LexerView, n: nat, m: nat)
    requires
        n + 1 + m <= t.code.rest.len(),
        forall|i: int| 0 <= i < n ==> is_digit_or_separator(t.code.rest[i], 10),
        t.code.rest[n as int] == '.',
        forall|i: int| n + 1 <= i < n + 1 + m ==> is_digit_or_separator(t.code.rest[i], 10),
    ensures
        all_radix_digits(without_separators(t.code.rest.take(n as int)), 10),
        all_radix_digits(
            without_separators(t.code.rest.subrange(n as int + 1, n as int + 1 + m as int)),
            10,
        ),
        decimal_digits(t, false, false) == decimal_digits(
            LexerView {
                code: moved_right(t.code, n + 1 + m),
                cache: t.cache + (without_separators(t.code.rest.take(n as int)) + seq!['.']
                    + without_separators(
                    t.code.rest.subrange(n as int + 1, n as int + 1 + m as int),
                )),
            },
            true,
            false,
        ),
{
    let rest = t.code.rest;
    let end = n as int + 1 + m as int;
    let whole = without_separators(rest.take(n as int));
    let fraction = without_separators(rest.subrange(n as int + 1, end));
    lemma_decimal_run(t, false, false, n);
    lemma_digits_on_one_line(t.code, n, 10);
    lemma_without_separators(rest.take(n as int), 10);
    let u1 = after(t, n, whole);
    assert(u1.code.head() == '.');
    let u2 = u1.shift();
    assert(u2.code.rest =~= rest.skip(n as int + 1));
    assert forall|i: int| 0 <= i < m implies is_digit_or_separator(u2.code.rest[i], 10) by {
        assert(u2.code.rest[i] == rest[i + n + 1]);
    }
    lemma_decimal_run(u2, true, false, m);
    lemma_digits_on_one_line(u2.code, m, 10);
    assert(u2.code.rest.take(m as int) =~= rest.subrange(n as int + 1, end));
    lemma_without_separators(rest.subrange(n as int + 1, end), 10);
    let u3 = after(u2, m, fraction);
    assert(u3.cache =~= t.cache + (whole + seq!['.'] + fraction));
    assert(u3.code.rest =~= rest.skip(end));
}

/// The value of decimal digits with a point between them. Where the
/// digits before the point fit in 64 bits, it has them and as many of the
/// digits behind the point as fit with them, and counts the latter as its
/// scale; where all digits fit, it is exact. Where the digits before the
/// point do not fit, it is their value as an integer.
pub proof fn lemma_decimal_value_of_parts(whole: Seq<char>, fraction: Seq<char>)
    requires
        all_radix_digits(whole, 10),
        all_radix_digits(fraction, 10),
    ensures
        ({
            let kept = fraction.take(kept_digits(radix_value(whole, 10), fraction, 10) as int);
            &&& decimal_value(whole + seq!['.'] + fraction) == if radix_value(whole, 10)
                <= u64::MAX {
                Some(
                    NumericValue {
                        digits: radix_fold(radix_value(whole, 10), kept, 10) as u64,
                        radix: 10,
                        scale: kept.len() as usize,
                        dropped: 0,
                    },
                )
            } else {
                integer_value(whole, 10)
            }
            &&& decimal_value(whole + seq!['.'] + fraction) is Some
            &&& radix_value(whole, 10) <= u64::MAX ==> radix_fold(radix_value(whole, 10), kept, 10)
                <= u64::MAX
            &&& radix_value(whole + fraction, 10) <= u64::MAX ==> kept == fraction && radix_fold(
                radix_value(whole, 10),
                kept,
                10,
            ) == radix_value(whole + fraction, 10)
        }),
{
    let text = whole + seq!['.'] + fraction;
    assert forall|j: int| 0 <= j < whole.len() implies text[j] != '.' by {
        assert(text[j] == whole[j]);
        assert(is_radix_digit(whole[j], 10));
    }
    assert(text[whole.len() as int] == '.');
    lemma_point_index(text, whole.len() as int);
    assert(integer_part(text) =~= whole);
    assert(fraction_part(text) =~= fraction);
    lemma_radix_fold_concat(0, whole, fraction, 10);
    lemma_radix_fold_prefix(0, whole + fraction, 10, whole.len() as int);
    assert((whole + fraction).take(whole.len() as int) =~= whole);
    if radix_value(whole, 10) <= u64::MAX {
        lemma_kept_digits(radix_value(whole, 10), fraction, 10);
        assert(fraction.take(fraction.len() as int) =~= fraction);
    }
}

/// Whether one of the first `n` characters is an `8` or a `9`.
pub open spec fn has_high_digit(run: Seq<char>, n: nat) -> bool {
    exists|i: int| 0 <= i < n && (#[trigger] run[i] == '8' || run[i] == '9')
}

/// A run of decimal digits and separators holds an `8` or a `9` exactly
/// where the scanner finds one.
pub proof fn lemma_high_digit_run(c: CodeView, n: nat)
    requires
        n <= c.rest.len(),
        forall|i: int| 0 <= i < n ==> is_digit_or_separator(c.rest[i], 10),
        n < c.rest.len() ==> !is_digit_or_separator(c.rest[n as int], 10),
    ensures
        run_has_high_digit(c) == has_high_digit(c.rest, n),
    decreases n,
{
    if n == 0 {
    } else {
        let d = c.step();
        assert forall|i: int| 0 <= i < n - 1 implies is_digit_or_separator(d.rest[i], 10) by {
            assert(d.rest[i] == c.rest[i + 1]);
        }
        if n < c.rest.len() {
            assert(d.rest[n - 1] == c.rest[n as int]);
        }
        lemma_high_digit_run(d, (n - 1) as nat);
        if has_high_digit(d.rest, (n - 1) as nat) {
            let i = choose|i: int|
                0 <= i < n - 1 && (#[trigger] d.rest[i] == '8' || d.rest[i] == '9');
            assert(c.rest[i + 1] == d.rest[i]);
        }
        if has_high_digit(c.rest, n) {
            let i = choose|i: int| 0 <= i < n && (#[trigger] c.rest[i] == '8' || c.rest[i] == '9');
            if i > 0 {
                assert(d.rest[i - 1] == c.rest[i]);
            }
        }
    }
}

/// The category of a literal of the legacy form whose digits are the
/// first `n` characters of `run`.
pub open spec fn legacy_category(run: Seq<char>, n: nat) -> TokenType {
    if has_high_digit(run, n) {
        TokenType::NUMERIC_LITERAL_DECIMAL
    } else {
        TokenType::NUMERIC_LITERAL_OCTAL
    }
}

/// The scan of a literal of the legacy form: the `0` and the digits are
/// consumed and the digits are in the buffer.
pub proof fn lemma_legacy_scan(s: LexerView, n: nat)
    requires
        1 <= n,
        n + 1 <= s.code.rest.len(),
        s.code.rest[0] == '0',
        is_ascii_digit(s.code.rest[1]),
        forall|i: int| 1 <= i <= n ==> is_digit_or_separator(s.code.rest[i], 10),
        n + 1 < s.code.rest.len() ==> !is_digit_or_separator(s.code.rest[n as int + 1], 10),
    ensures
        lex(s) == number_outcome(
            scanned(s, n + 1, without_separators(s.code.rest.subrange(1, n as int + 1))),
            legacy_category(s.code.rest.skip(1), n),
        ),
{
    let rest = s.code.rest;
    let run = rest.subrange(1, n as int + 1);
    let text = without_separators(run);
    assert(skip_blank(s.code) == s.code);
    let m0 = LexerView { code: s.code.mark(), cache: Seq::empty() };
    let z = m0.step();
    assert(z.code.rest =~= rest.skip(1));
    assert forall|i: int| 0 <= i < n implies is_digit_or_separator(z.code.rest[i], 10) by {
        assert(z.code.rest[i] == rest[i + 1]);
    }
    if n + 1 < rest.len() {
        assert(z.code.rest[n as int] == rest[n as int + 1]);
    }
    lemma_digit_run(z, 10, n);
    lemma_digits_on_one_line(z.code, n, 10);
    lemma_high_digit_run(z.code, n);
    assert(z.code.rest.take(n as int) =~= run);
    let u = after(z, n, text);
    assert(u.cache =~= text);
    assert(u.code.rest =~= rest.skip(n as int + 1));
    if n + 1 < rest.len() {
        assert(u.code.head() == rest[n as int + 1]);
    }
    assert(digit_run(u, 10) == u);
}

/// A literal of the legacy form: `0` and a digit, followed by further
/// digits or separators, `n` characters behind the `0` in all, behind
/// which the text ends or goes on with another character. A character
/// that begins an identifier must not follow. The literal is octal unless
/// one of its digits is `8` or `9`, which makes it decimal; the leading `0`
/// is no part of the token's text. Its value is that of the digits,
/// however many they are.
pub proof fn law_legacy_literal(s: LexerView, n: nat)
    requires
        1 <= n,
        n + 1 <= s.code.rest.len(),
        s.code.rest[0] == '0',
        is_ascii_digit(s.code.rest[1]),
        forall|i: int| 1 <= i <= n ==> is_digit_or_separator(s.code.rest[i], 10),
        n + 1 < s.code.rest.len() ==> !is_digit_or_separator(s.code.rest[n as int + 1], 10),
    ensures
        ({
            let rest = s.code.rest;
            let text = without_separators(rest.subrange(1, n as int + 1));
            let decimal = has_high_digit(rest.skip(1), n);
            let radix: nat = if decimal {
                10
            } else {
                8
            };
            &&& all_radix_digits(text, radix)
            &&& lex(s).result == if offends_behind_number(rest, n as int + 1) {
                Err(LexerErrorView::UnexpectedToken(seq![rest[n as int + 1]]))
            } else {
                Ok(
                    integer_token(
                        text,
                        radix,
                        legacy_category(rest.skip(1), n),
                        s.code.line,
                        s.code.column,
                    ),
                )
            }
            &&& lex(s).state == scanned(s, n + 1, Seq::empty())
        }),
{
    let rest = s.code.rest;
    let run = rest.subrange(1, n as int + 1);
    let text = without_separators(run);
    let u = scanned(s, n + 1, text);
    lemma_legacy_scan(s, n);
    if has_high_digit(rest.skip(1), n) {
        lemma_without_separators(run, 10);
        lemma_decimal_text_without_point(text);
    } else {
        assert forall|i: int| 0 <= i < run.len() implies is_digit_or_separator(run[i], 8) by {
            assert(run[i] == rest.skip(1)[i]);
            assert(!(rest.skip(1)[i] == '8' || rest.skip(1)[i] == '9'));
        }
        lemma_without_separators(run, 8);
    }
    lemma_number_outcome(u, legacy_category(rest.skip(1), n));
    if n + 1 < rest.len() {
        assert(u.code.rest[0] == rest[n as int + 1]);
    }
}

/// The scan of a `0` that stands alone: it is consumed and is in the
/// buffer.
pub proof fn lemma_bare_zero_scan(s: LexerView)
    requires
        s.code.rest.len() >= 1,
        s.code.rest[0] == '0',
        s.code.rest.len() > 1 ==> !is_radix_prefix(s.code.rest[1]) && !is_ascii_digit(
            s.code.rest[1],
        ),
    ensures
        lex(s) == number_outcome(scanned(s, 1, seq!['0']), TokenType::NUMERIC_LITERAL_DECIMAL),
{
    let rest = s.code.rest;
    assert(skip_blank(s.code) == s.code);
    let m0 = LexerView { code: s.code.mark(), cache: Seq::empty() };
    let z = m0.step();
    assert(z.code.rest =~= rest.skip(1));
    if rest.len() > 1 {
        assert(z.code.head() == rest[1]);
    }
    assert(z.accept('0').cache =~= seq!['0']);
}

/// The value of the text `0`.
pub proof fn lemma_value_of_zero()
    ensures
        decimal_value(seq!['0']) == Some(
            NumericValue { digits: 0, radix: 10, scale: 0, dropped: 0 },
        ),
{
    let text = seq!['0'];
    assert(all_radix_digits(text, 10));
    lemma_decimal_text_without_point(text);
    assert(text.drop_last() =~= Seq::<char>::empty());
    reveal_with_fuel(radix_fold, 2);
    assert(radix_value(text, 10) == 0);
    lemma_integer_value_exact(text, 10);
}

/// A `0` that stands alone: behind it the text ends or goes on with a
/// character that is neither a radix letter nor a digit. A character that
/// begins an identifier must not follow. The token is the decimal
/// literal `0`.
pub proof fn law_bare_zero(s: LexerView)
    requires
        s.code.rest.len() >= 1,
        s.code.rest[0] == '0',
        s.code.rest.len() > 1 ==> !is_radix_prefix(s.code.rest[1]) && !is_ascii_digit(
            s.code.rest[1],
        ),
    ensures
        lex(s).result == if offends_behind_number(s.code.rest, 1) {
            Err::<TokenView, LexerErrorView>(
                LexerErrorView::UnexpectedToken(seq![s.code.rest[1]]),
            )
        } else {
            Ok(
                TokenView {
                    value: seq!['0'],
                    number: Some(NumericValue { digits: 0, radix: 10, scale: 0, dropped: 0 }),
                    category: TokenType::NUMERIC_LITERAL_DECIMAL,
                    line: s.code.line,
                    column: s.code.column,
                },
            )
        },
        lex(s).state == scanned(s, 1, Seq::empty()),
{
    let u = scanned(s, 1, seq!['0']);
    lemma_bare_zero_scan(s);
    lemma_value_of_zero();
    lemma_number_outcome(u, TokenType::NUMERIC_LITERAL_DECIMAL);
    if s.code.rest.len() > 1 {
        assert(u.code.rest[0] == s.code.rest[1]);
    }
}

// ---------------------------------------------------------------------
// Between lexemes
// ---------------------------------------------------------------------
/// Characters at which no lexeme begins are passed over, however many
/// there are: the request gives what it gives from behind them.
pub proof fn law_blanks_are_skipped(s: LexerView, n: nat)
    requires
        n <= s.code.rest.len(),
        forall|i: int| 0 <= i < n ==> !starts_lexeme(s.code.rest[i]),
    ensures
        lex(s) == lex(LexerView { code: s.code.skip(n), ..s }),
    decreases n,
{
    if n > 0 {
        let u = s.step();
        assert forall|i: int| 0 <= i < n - 1 implies !starts_lexeme(u.code.rest[i]) by {
            assert(u.code.rest[i] == s.code.rest[i + 1]);
        }
        law_blanks_are_skipped(u, (n - 1) as nat);
        lemma_skip_front(s.code, n);
    }
}

// ---------------------------------------------------------------------
// Unicode escapes
// ---------------------------------------------------------------------
/// Whether the first `n` characters are hexadecimal digits.
pub open spec fn starts_with_hex_digits(rest: Seq<char>, n: nat) -> bool {
    n <= rest.len() && forall|i: int| 0 <= i < n ==> spec_is_hex_digit(#[trigger] rest[i])
}

/// Reading a hexadecimal digit continues the number read so far.
proof fn lemma_fold_front(acc: nat, digits: Seq<char>)
    requires
        digits.len() >= 1,
    ensures
        radix_fold(acc, digits, 16) == radix_fold(
            acc * 16 + hex_digit_value(digits[0]),
            digits.drop_first(),
            16,
        ),
{
    let first = seq![digits[0]];
    assert(first + digits.drop_first() =~= digits);
    lemma_radix_fold_concat(acc, first, digits.drop_first(), 16);
    assert(first.drop_last() =~= Seq::<char>::empty());
    reveal_with_fuel(radix_fold, 2);
}

/// A run of `n` hexadecimal digits that is followed by another character
/// is read as one number; the character stays in place.
pub proof fn lemma_hex_run_value(t: LexerView, acc: nat, n: nat)
    requires
        starts_with_hex_digits(t.code.rest, n),
        n < t.code.rest.len(),
        !spec_is_hex_digit(t.code.rest[n as int]),
    ensures
        hex_run(t, acc) == (Counted {
            state: LexerView { code: moved_right(t.code, n), ..t },
            value: Ok(radix_fold(acc, t.code.rest.take(n as int), 16)),
        }),
    decreases n,
{
    lemma_skip_on_one_line(t.code, n);
    if n == 0 {
        assert(t.code.rest.skip(0) =~= t.code.rest);
    } else {
        let u = t.step();
        assert forall|i: int| 0 <= i < n - 1 implies spec_is_hex_digit(
            #[trigger] u.code.rest[i],
        ) by {
            assert(u.code.rest[i] == t.code.rest[i + 1]);
        }
        assert(u.code.rest[n - 1] == t.code.rest[n as int]);
        lemma_hex_run_value(u, acc * 16 + hex_digit_value(t.head()), (n - 1) as nat);
        lemma_fold_front(acc, t.code.rest.take(n as int));
        assert(t.code.rest.take(n as int).drop_first() =~= u.code.rest.take(n - 1));
        lemma_skip_front(t.code, n);
        lemma_skip_on_one_line(u.code, (n - 1) as nat);
    }
}

/// Exactly `n` hexadecimal digits are read as one number.
pub proof fn lemma_fixed_hex_value(t: LexerView, acc: nat, n: nat)
    requires
        starts_with_hex_digits(t.code.rest, n),
    ensures
        fixed_hex(t, n, acc) == (Counted {
            state: LexerView { code: moved_right(t.code, n), ..t },
            value: Ok(radix_fold(acc, t.code.rest.take(n as int), 16)),
        }),
    decreases n,
{
    lemma_skip_on_one_line(t.code, n);
    if n == 0 {
        assert(t.code.rest.skip(0) =~= t.code.rest);
    } else {
        let u = t.step();
        assert forall|i: int| 0 <= i < n - 1 implies spec_is_hex_digit(
            #[trigger] u.code.rest[i],
        ) by {
            assert(u.code.rest[i] == t.code.rest[i + 1]);
        }
        lemma_fixed_hex_value(u, acc * 16 + hex_digit_value(t.head()), (n - 1) as nat);
        lemma_fold_front(acc, t.code.rest.take(n as int));
        assert(t.code.rest.take(n as int).drop_first() =~= u.code.rest.take(n - 1));
        lemma_skip_front(t.code, n);
        lemma_skip_on_one_line(u.code, (n - 1) as nat);
    }
}

/// The escape `u` with four hexadecimal digits, behind the backslash,
/// denotes the character whose code point the digits give; the code
/// point must not be a surrogate. All five characters are consumed.
pub proof fn law_four_digit_escape(s: LexerView)
    requires
        s.code.rest.len() >= 5,
        s.code.rest[0] == 'u',
        starts_with_hex_digits(s.code.rest.skip(1), 4),
    ensures
        escape(s) == (Decoded {
            state: LexerView { code: moved_right(s.code, 5), ..s },
            value: code_point_char(radix_value(s.code.rest.subrange(1, 5), 16)),
        }),
        unicode_escape(s) == escape(s),
        radix_value(s.code.rest.subrange(1, 5), 16) <= 0xFFFF,
{
    let rest = s.code.rest;
    let t = s.step();
    assert(t.code.rest =~= rest.skip(1));
    assert(spec_is_hex_digit(rest.skip(1)[0]));
    assert(t.code.head() != '{');
    lemma_fixed_hex_value(t, 0, 4);
    assert(t.code.rest.take(4) =~= rest.subrange(1, 5));
    assert(moved_right(t.code, 4).rest =~= moved_right(s.code, 5).rest);
    let d = rest.subrange(1, 5);
    let d3 = d.drop_last();
    let d2 = d3.drop_last();
    let d1 = d2.drop_last();
    let h = rest.skip(1);
    assert(spec_is_hex_digit(h[1]) && spec_is_hex_digit(h[2]) && spec_is_hex_digit(h[3]));
    assert(d.last() == h[3] && d3.last() == h[2] && d2.last() == h[1] && d1.last() == h[0]);
    assert(d1.drop_last() =~= Seq::<char>::empty());
    reveal_with_fuel(radix_fold, 5);
}

/// What the escape `u{...}` denotes where its code point is `v` and the
/// character `closer` stands behind its digits: the character with that
/// code point, which must be no surrogate and at most `0x10FFFF`, provided
/// that `closer` is the closing brace.
pub open spec fn braced_value(v: nat, closer: char) -> Result<char, LexerErrorView> {
    if code_point_char(v) is Ok && closer != '}' {
        Err(LexerErrorView::InvalidUnicodeSequence)
    } else {
        code_point_char(v)
    }
}

/// The escape `u` with `n` hexadecimal digits in braces, at least one,
/// behind the backslash: it denotes the character whose code point the
/// digits give. The digits and the closing brace are consumed. Where the
/// code point denotes no character, or another character than the
/// closing brace stands behind the digits, the escape is refused and
/// that character stays in place.
pub proof fn law_braced_escape(s: LexerView, n: nat)
    requires
        n >= 1,
        s.code.rest.len() >= n + 3,
        s.code.rest[0] == 'u',
        s.code.rest[1] == '{',
        starts_with_hex_digits(s.code.rest.skip(2), n),
        !spec_is_hex_digit(s.code.rest[n as int + 2]),
    ensures
        escape(s).value == braced_value(
            radix_value(s.code.rest.subrange(2, n as int + 2), 16),
            s.code.rest[n as int + 2],
        ),
        escape(s).state == if escape(s).value is Ok {
            LexerView { code: moved_right(s.code, n + 3), ..s }
        } else {
            LexerView { code: moved_right(s.code, n + 2), ..s }
        },
        unicode_escape(s) == escape(s),
{
    let rest = s.code.rest;
    let t = s.step();
    assert(t.code.rest =~= rest.skip(1));
    let b = t.step();
    assert(b.code.rest =~= rest.skip(2));
    assert(b.code.rest[n as int] == rest[n as int + 2]);
    assert(spec_is_hex_digit(rest.skip(2)[0]));
    lemma_hex_run_value(b, 0, n);
    assert(b.code.rest.take(n as int) =~= rest.subrange(2, n as int + 2));
    let e = moved_right(b.code, n);
    assert(e.rest =~= moved_right(s.code, n + 2).rest);
    assert(e.head() == rest[n as int + 2]);
    assert(e.rest.drop_first() =~= moved_right(s.code, n + 3).rest);
}

/// The escape `u{` must go on with a hexadecimal digit: where the text
/// ends behind the brace, or another character follows it, the escape is
/// refused and that character stays in place.
pub proof fn law_braced_escape_needs_digit(s: LexerView)
    requires
        s.code.rest.len() >= 2,
        s.code.rest[0] == 'u',
        s.code.rest[1] == '{',
        s.code.rest.len() > 2 ==> !spec_is_hex_digit(s.code.rest[2]),
    ensures
        escape(s) == (Decoded {
            state: LexerView { code: moved_right(s.code, 2), ..s },
            value: Err(LexerErrorView::InvalidUnicodeSequence),
        }),
        unicode_escape(s) == escape(s),
{
    let rest = s.code.rest;
    let t = s.step();
    assert(t.code.rest =~= rest.skip(1));
    let b = t.step();
    assert(b.code.rest =~= rest.skip(2));
    if rest.len() > 2 {
        assert(b.code.head() == rest[2]);
    }
}

} // verus!
