//! Properties of the scanning rules that hold for every input.

use crate::input::{spec_is_line_break, CodeView};
use crate::lexer::error::LexerErrorView;
use crate::lexer::grammar::{
    accept_escape, decimal_digits, digit_run, escape, fixed_hex, hex_escape, hex_run,
    identifier_body, lex, lexeme, octal_escape, punctuator_category, radix_digits,
    run_has_high_digit, skip_blank, starts_lexeme, string_body, unicode_digits, unicode_escape,
    zero_literal, Lexed, LexerView,
};
use crate::lexer::token::{
    hex_digit_value, is_ascii_digit, keyword_category, spec_is_hex_digit,
    spec_is_identifier_continue, spec_is_identifier_start, spec_is_line_terminator,
    spec_is_numeric_token, TokenView,
};
use crate::lexer::util::{
    all_radix_digits, fraction_part, integer_part, is_decimal_text, is_radix_digit,
    lemma_decimal_text_without_point, lemma_point_index, lemma_point_index_bound, numeric_value,
    point_index,
};
use vstd::prelude::*;

verus! {

// ---------------------------------------------------------------------
// How the cursor moves
// ---------------------------------------------------------------------
/// Two cursors at the same place of the same text.
pub open spec fn same_place(a: CodeView, b: CodeView) -> bool {
    a.rest == b.rest && a.line == b.line && a.column == b.column
}

/// The cursor `b` is reached from `a` by consuming characters one by one.
pub open spec fn follows(a: CodeView, b: CodeView) -> bool
    decreases a.rest.len(),
{
    same_place(a, b) || (!a.at_end() && follows(a.step(), b))
}

/// How the scanner state `b` relates to a state `a` from which scanning
/// went on: the cursor has only moved forward, the start of the lexeme is
/// still recorded.
pub open spec fn scanned_from(a: LexerView, b: LexerView) -> bool {
    follows(a.code, b.code) && b.code.column_start == a.code.column_start
}

/// A cursor is followed by the cursor one character on.
pub proof fn lemma_follows_step(a: CodeView)
    ensures
        follows(a, a.step()),
{
    if !a.at_end() {
        assert(follows(a.step(), a.step()));
    }
}

/// Following is transitive.
pub proof fn lemma_follows_trans(a: CodeView, b: CodeView, c: CodeView)
    requires
        follows(a, b),
        follows(b, c),
    ensures
        follows(a, c),
    decreases a.rest.len(),
{
    if same_place(a, b) {
        lemma_follows_from_same_place(b, a, c);
    } else {
        lemma_follows_trans(a.step(), b, c);
    }
}

/// What follows a cursor follows every cursor at the same place.
pub proof fn lemma_follows_from_same_place(a: CodeView, b: CodeView, c: CodeView)
    requires
        same_place(a, b),
        follows(a, c),
    ensures
        follows(b, c),
    decreases a.rest.len(),
{
    if same_place(a, c) {
    } else {
        lemma_follows_from_same_place(a.step(), b.step(), c);
    }
}

/// A cursor that follows another has consumed a prefix of its text: what
/// is left is a suffix, and the line number has not gone down.
pub proof fn lemma_follows_suffix(a: CodeView, b: CodeView)
    requires
        follows(a, b),
    ensures
        b.rest.len() <= a.rest.len(),
        b.rest == a.rest.skip(a.rest.len() - b.rest.len()),
        b.line >= a.line,
    decreases a.rest.len(),
{
    if same_place(a, b) {
        assert(a.rest.skip(0) =~= a.rest);
    } else {
        lemma_follows_suffix(a.step(), b);
        assert(a.step().rest.skip(a.step().rest.len() - b.rest.len()) =~= a.rest.skip(
            a.rest.len() - b.rest.len(),
        ));
    }
}

/// Where no line break is consumed the line stays and the column grows
/// by the number of characters consumed.
pub proof fn lemma_follows_on_one_line(a: CodeView, b: CodeView)
    requires
        follows(a, b),
        forall|i: int| 0 <= i < a.rest.len() - b.rest.len() ==> !spec_is_line_break(a.rest[i]),
    ensures
        b.line == a.line,
        b.column == a.column + a.rest.len() - b.rest.len(),
    decreases a.rest.len(),
{
    if same_place(a, b) {
    } else {
        lemma_follows_suffix(a.step(), b);
        let d = a.step();
        assert forall|i: int| 0 <= i < d.rest.len() - b.rest.len() implies !spec_is_line_break(
            d.rest[i],
        ) by {
            assert(d.rest[i] == a.rest[i + 1]);
        }
        assert(!spec_is_line_break(a.rest[0]));
        lemma_follows_on_one_line(a.step(), b);
    }
}


// ---------------------------------------------------------------------
// Every rule moves the cursor forward only
// ---------------------------------------------------------------------
/// The failures in which the scan of a lexeme can end. The end-of-input
/// signal is none of them, nor is `IllegalCharacter` or
/// `UnexpectedKeyword`, which no rule reports, nor are the failures of a
/// numeric literal without a value, which every scanned literal has.
pub open spec fn is_lexeme_failure(e: LexerErrorView) -> bool {
    &&& !(e is EOF)
    &&& !(e is IllegalCharacter)
    &&& !(e is UnexpectedKeyword)
    &&& !(e is InvalidBinaryNumber)
    &&& !(e is InvalidOctalNumber)
    &&& !(e is InvalidNumberSeq)
}

/// The result is a success or one of the failures of a lexeme.
pub open spec fn lexeme_result<T>(r: Result<T, LexerErrorView>) -> bool {
    r matches Err(e) ==> is_lexeme_failure(e)
}

/// Consuming a character, with or without accumulating it, moves the
/// scanner forward.
pub proof fn lemma_scanned_from_step(s: LexerView)
    ensures
        scanned_from(s, s.step()),
        scanned_from(s, s.shift()),
{
    lemma_follows_step(s.code);
}

/// Moving forward twice is moving forward.
pub proof fn lemma_scanned_from_trans(a: LexerView, b: LexerView, c: LexerView)
    requires
        scanned_from(a, b),
        scanned_from(b, c),
    ensures
        scanned_from(a, c),
{
    lemma_follows_trans(a.code, b.code, c.code);
}

/// A run of digits moves the scanner forward and fails only as a lexeme
/// does.
pub proof fn lemma_digit_run_moves(s: LexerView, radix: nat)
    ensures
        scanned_from(s, digit_run(s, radix)),
        scanned_from(s, radix_digits(s, radix).state),
        lexeme_result(radix_digits(s, radix).result),
    decreases s.code.rest.len(),
{
    if !s.at_end() && is_radix_digit(s.head(), radix) {
        lemma_digit_run_moves(s.shift(), radix);
        lemma_scanned_from_step(s);
        lemma_scanned_from_trans(s, s.shift(), digit_run(s, radix));
    } else if s.sees_char('_') {
        lemma_digit_run_moves(s.step(), radix);
        lemma_scanned_from_step(s);
        lemma_scanned_from_trans(s, s.step(), digit_run(s, radix));
    }
}

/// Decimal digits move the scanner forward and fail only as a lexeme
/// does.
pub proof fn lemma_decimal_digits_moves(s: LexerView, seen_point: bool, radix_prefix: bool)
    ensures
        scanned_from(s, decimal_digits(s, seen_point, radix_prefix).state),
        lexeme_result(decimal_digits(s, seen_point, radix_prefix).result),
    decreases s.code.rest.len(),
{
    let r = decimal_digits(s, seen_point, radix_prefix).state;
    if !s.at_end() && is_ascii_digit(s.head()) {
        lemma_decimal_digits_moves(s.shift(), seen_point, radix_prefix);
        lemma_scanned_from_step(s);
        lemma_scanned_from_trans(s, s.shift(), r);
    } else if s.sees_char('.') {
        if !(radix_prefix || seen_point) {
            lemma_decimal_digits_moves(s.shift(), true, radix_prefix);
            lemma_scanned_from_step(s);
            lemma_scanned_from_trans(s, s.shift(), r);
        }
    } else if s.sees_char('_') {
        lemma_decimal_digits_moves(s.step(), seen_point, radix_prefix);
        lemma_scanned_from_step(s);
        lemma_scanned_from_trans(s, s.step(), r);
    }
}

/// Reading a fixed number of hexadecimal digits moves the scanner forward.
pub proof fn lemma_fixed_hex_moves(s: LexerView, count: nat, acc: nat)
    ensures
        scanned_from(s, fixed_hex(s, count, acc).state),
        lexeme_result(fixed_hex(s, count, acc).value),
    decreases count,
{
    if count == 0 || s.at_end() {
    } else {
        lemma_scanned_from_step(s);
        if spec_is_hex_digit(s.head()) {
            let t = fixed_hex(s.step(), (count - 1) as nat, acc * 16 + hex_digit_value(s.head()));
            lemma_fixed_hex_moves(
                s.step(),
                (count - 1) as nat,
                acc * 16 + hex_digit_value(s.head()),
            );
            lemma_scanned_from_trans(s, s.step(), t.state);
        }
    }
}

/// Reading a run of hexadecimal digits moves the scanner forward.
pub proof fn lemma_hex_run_moves(s: LexerView, acc: nat)
    ensures
        scanned_from(s, hex_run(s, acc).state),
        lexeme_result(hex_run(s, acc).value),
    decreases s.code.rest.len(),
{
    if !s.at_end() && spec_is_hex_digit(s.head()) {
        lemma_scanned_from_step(s);
        lemma_hex_run_moves(s.step(), acc * 16 + hex_digit_value(s.head()));
        lemma_scanned_from_trans(s, s.step(), hex_run(s, acc).state);
    }
}

/// Decoding the digits of a unicode escape moves the scanner forward.
pub proof fn lemma_unicode_digits_moves(s: LexerView)
    ensures
        scanned_from(s, unicode_digits(s).state),
        lexeme_result(unicode_digits(s).value),
{
    if s.at_end() {
    } else if s.head() == '{' {
        let t = s.step();
        lemma_scanned_from_step(s);
        lemma_hex_run_moves(t, 0);
        let h = hex_run(t, 0).state;
        lemma_scanned_from_step(h);
        lemma_scanned_from_trans(s, t, h);
        lemma_scanned_from_trans(s, h, h.step());
    } else {
        lemma_fixed_hex_moves(s, 4, 0);
    }
}

/// Decoding a unicode escape moves the scanner forward.
pub proof fn lemma_unicode_escape_moves(s: LexerView)
    ensures
        scanned_from(s, unicode_escape(s).state),
        lexeme_result(unicode_escape(s).value),
{
    if !s.at_end() {
        lemma_scanned_from_step(s);
        if s.head() == 'u' {
            lemma_unicode_digits_moves(s.step());
            lemma_scanned_from_trans(s, s.step(), unicode_digits(s.step()).state);
        }
    }
}

/// Decoding an `x` escape moves the scanner forward.
pub proof fn lemma_hex_escape_moves(s: LexerView)
    ensures
        scanned_from(s, hex_escape(s).state),
        lexeme_result(hex_escape(s).value),
{
    if !s.at_end() && spec_is_hex_digit(s.head()) {
        let t = s.step();
        lemma_scanned_from_step(s);
        lemma_scanned_from_step(t);
        lemma_scanned_from_trans(s, t, t.step());
    }
}

/// Decoding a legacy octal escape moves the scanner forward.
pub proof fn lemma_octal_escape_moves(s: LexerView, v: nat)
    ensures
        scanned_from(s, octal_escape(s, v).state),
        lexeme_result(octal_escape(s, v).value),
{
    let t = s.step();
    lemma_scanned_from_step(s);
    lemma_scanned_from_step(t);
    lemma_scanned_from_trans(s, t, t.step());
}

/// Decoding an escape sequence moves the scanner forward and fails
/// only as a lexeme does.
pub proof fn lemma_escape_moves(s: LexerView)
    ensures
        scanned_from(s, escape(s).state),
        lexeme_result(escape(s).value),
        scanned_from(s, accept_escape(s).state),
        lexeme_result(accept_escape(s).result),
{
    if !s.at_end() {
        let t = s.step();
        lemma_scanned_from_step(s);
        lemma_hex_escape_moves(t);
        lemma_octal_escape_moves(t, hex_digit_value(s.head()));
        lemma_unicode_digits_moves(t);
        lemma_scanned_from_trans(s, t, escape(s).state);
    }
}

/// Scanning the body of a string literal moves the scanner forward.
pub proof fn lemma_string_body_moves(s: LexerView, quote: char)
    ensures
        scanned_from(s, string_body(s, quote).state),
        lexeme_result(string_body(s, quote).result),
    decreases s.code.rest.len(),
{
    if s.at_end() {
    } else {
        lemma_scanned_from_step(s);
        let r = string_body(s, quote).state;
        if spec_is_line_break(s.head()) || s.head() == quote {
        } else if s.head() == '\\' {
            let e = accept_escape(s.step());
            lemma_escape_moves(s.step());
            lemma_follows_suffix(s.step().code, e.state.code);
            lemma_scanned_from_trans(s, s.step(), e.state);
            if e.result is Ok {
                lemma_string_body_moves(e.state, quote);
                lemma_scanned_from_trans(s, e.state, r);
            }
        } else {
            lemma_string_body_moves(s.shift(), quote);
            lemma_scanned_from_trans(s, s.shift(), r);
        }
    }
}

/// Scanning an identifier moves the scanner forward.
pub proof fn lemma_identifier_body_moves(s: LexerView)
    ensures
        scanned_from(s, identifier_body(s).state),
        lexeme_result(identifier_body(s).result),
    decreases s.code.rest.len(),
{
    if s.at_end() {
    } else {
        lemma_scanned_from_step(s);
        let r = identifier_body(s).state;
        if spec_is_identifier_continue(s.head()) {
            lemma_identifier_body_moves(s.shift());
            lemma_scanned_from_trans(s, s.shift(), r);
        } else if s.head() == '\\' {
            let d = unicode_escape(s.step());
            lemma_unicode_escape_moves(s.step());
            lemma_follows_suffix(s.step().code, d.state.code);
            lemma_scanned_from_trans(s, s.step(), d.state);
            if d.value is Ok && spec_is_identifier_continue(d.value->Ok_0) {
                lemma_identifier_body_moves(d.state.accept(d.value->Ok_0));
                lemma_scanned_from_trans(s, d.state.accept(d.value->Ok_0), r);
            }
        }
    }
}

/// What holds of the outcome `l` of scanning one lexeme from the state
/// `s`: the cursor has moved forward by at least one character, a
/// failure is one of those of a lexeme, and a token carries the column at
/// which the lexeme began and the line on which it ended.
pub open spec fn lexeme_outcome(s: LexerView, l: Lexed) -> bool {
    &&& scanned_from(s, l.state)
    &&& l.state.code.rest.len() < s.code.rest.len()
    &&& lexeme_result(l.result)
    &&& l.result matches Ok(t) ==> {
        &&& t.column == s.code.column_start
        &&& t.line == l.state.code.line
        &&& l.state.cache == Seq::<char>::empty()
    }
}

/// The outcome of a literal with a leading `0` is that of a lexeme.
pub proof fn lemma_zero_literal_outcome(s: LexerView)
    requires
        !s.at_end(),
        s.head() == '0',
        s.cache == Seq::<char>::empty(),
    ensures
        lexeme_outcome(s, zero_literal(s)),
{
    lemma_number_lexeme_result(s);
    let z = s.step();
    lemma_scanned_from_step(s);
    lemma_scanned_from_step(z);
    lemma_digit_run_moves(z.step(), 8);
    lemma_digit_run_moves(z.step(), 2);
    lemma_digit_run_moves(z.step(), 16);
    lemma_digit_run_moves(z, 10);
    let l = zero_literal(s);
    if z.sees_char('o') || z.sees_char('O') {
        lemma_scanned_from_trans(z, z.step(), radix_digits(z.step(), 8).state);
        lemma_scanned_from_trans(s, z, radix_digits(z.step(), 8).state);
    } else if z.sees_char('b') || z.sees_char('B') {
        lemma_scanned_from_trans(z, z.step(), radix_digits(z.step(), 2).state);
        lemma_scanned_from_trans(s, z, radix_digits(z.step(), 2).state);
    } else if z.sees_char('x') || z.sees_char('X') {
        lemma_scanned_from_trans(z, z.step(), radix_digits(z.step(), 16).state);
        lemma_scanned_from_trans(s, z, radix_digits(z.step(), 16).state);
    } else if !z.at_end() && is_ascii_digit(z.head()) {
        lemma_scanned_from_trans(s, z, radix_digits(z, 10).state);
    }
    lemma_follows_suffix(z.code, l.state.code);
}

/// Whatever lexeme is scanned, the cursor moves forward by at least one
/// character and a token is placed at the start of the lexeme.
pub proof fn lemma_lexeme_outcome(s: LexerView)
    requires
        !s.at_end(),
        starts_lexeme(s.head()),
        s.cache == Seq::<char>::empty(),
    ensures
        lexeme_outcome(s, lexeme(s)),
{
    let c = s.head();
    lemma_scanned_from_step(s);
    if punctuator_category(c) is Some {
    } else if c == '\'' || c == '"' {
        lemma_string_body_moves(s.step(), c);
        let b = string_body(s.step(), c);
        lemma_scanned_from_trans(s, s.step(), b.state);
        lemma_follows_suffix(s.step().code, b.state.code);
    } else if spec_is_identifier_start(c) {
        lemma_identifier_body_moves(s.shift());
        let b = identifier_body(s.shift());
        lemma_scanned_from_trans(s, s.shift(), b.state);
        lemma_follows_suffix(s.shift().code, b.state.code);
    } else if c == '0' {
        lemma_zero_literal_outcome(s);
    } else {
        lemma_number_lexeme_result(s);
        lemma_decimal_digits_moves(s.shift(), false, false);
        let b = decimal_digits(s.shift(), false, false);
        lemma_scanned_from_trans(s, s.shift(), b.state);
        lemma_follows_suffix(s.shift().code, b.state.code);
        assert(decimal_digits(s, false, false) == b);
    }
}

/// Passing over what begins no lexeme moves the cursor forward, to the
/// end of the text or to a character that begins a lexeme.
pub proof fn lemma_skip_blank_moves(c: CodeView)
    ensures
        follows(c, skip_blank(c)),
        skip_blank(c).column_start == c.column_start,
        skip_blank(c).at_end() || starts_lexeme(skip_blank(c).head()),
    decreases c.rest.len(),
{
    if !c.at_end() && !starts_lexeme(c.head()) {
        lemma_skip_blank_moves(c.step());
        lemma_follows_step(c);
        lemma_follows_trans(c, c.step(), skip_blank(c));
    }
}

// ---------------------------------------------------------------------
// One request for a token
// ---------------------------------------------------------------------
/// A punctuator of one character at the cursor is handed out as a token
/// whose text is that character and whose position is that of the cursor;
/// exactly that character is consumed.
pub proof fn law_punctuator_token(s: LexerView)
    requires
        !s.at_end(),
        punctuator_category(s.head()) is Some,
    ensures
        lex(s).result == Ok::<TokenView, LexerErrorView>(
            TokenView {
                value: seq![s.head()],
                number: None,
                category: punctuator_category(s.head())->0,
                line: s.code.line,
                column: s.code.column,
            },
        ),
        lex(s).state == (LexerView { code: s.code.mark().step(), cache: Seq::empty() }),
{
    let c = s.head();
    assert(skip_blank(s.code) == s.code);
    let m = LexerView { code: s.code.mark(), cache: Seq::empty() };
    assert(m.shift().cache =~= seq![c]);
    assert(!spec_is_line_break(c));
}

/// Scanning a text that consists of one punctuator gives the token for
/// that punctuator, with the character as its text, at line 1 and column
/// 1, and leaves nothing behind.
pub proof fn law_single_punctuator(c: char)
    requires
        punctuator_category(c) is Some,
    ensures
        lex(LexerView::start(seq![c])).result == Ok::<TokenView, LexerErrorView>(
            TokenView {
                value: seq![c],
                number: None,
                category: punctuator_category(c)->0,
                line: 1,
                column: 1,
            },
        ),
        lex(LexerView::start(seq![c])).state.at_end(),
{
    let s = LexerView::start(seq![c]);
    law_punctuator_token(s);
    assert(s.code.mark().step().rest =~= Seq::<char>::empty());
}

/// The state after `n` requests for a token.
pub open spec fn lex_repeat(s: LexerView, n: nat) -> LexerView
    decreases n,
{
    if n == 0 {
        s
    } else {
        lex(lex_repeat(s, (n - 1) as nat)).state
    }
}

/// The end of the input is signalled exactly when no lexeme is left, and
/// then the cursor stands at the end of the text.
pub proof fn law_eof_iff_no_lexeme(s: LexerView)
    ensures
        lex(s).result == Err::<TokenView, LexerErrorView>(LexerErrorView::EOF) <==> skip_blank(
            s.code,
        ).at_end(),
        lex(s).result == Err::<TokenView, LexerErrorView>(LexerErrorView::EOF) ==> lex(
            s,
        ).state.at_end(),
{
    let t = LexerView { code: skip_blank(s.code), cache: Seq::empty() };
    if !t.at_end() {
        lemma_skip_blank_moves(s.code);
        lemma_lexeme_outcome(t.mark());
    }
}

/// Past the end of the input every request gives the end-of-input signal
/// and leaves the cursor where it is, however often it is repeated.
pub proof fn law_eof_is_stable(s: LexerView, n: nat)
    requires
        s.at_end(),
    ensures
        lex(lex_repeat(s, n)).result == Err::<TokenView, LexerErrorView>(LexerErrorView::EOF),
        lex_repeat(s, n).code == s.code,
        lex(lex_repeat(s, n)).state == s.clear(),
    decreases n,
{
    if n > 0 {
        law_eof_is_stable(s, (n - 1) as nat);
    }
}

/// What is in the accumulation buffer when a request is made has no
/// effect on its outcome, and no request leaves anything in the buffer.
pub proof fn law_buffer_does_not_leak(s: LexerView, other: Seq<char>)
    ensures
        lex(s) == lex(LexerView { cache: other, ..s }),
        lex(s).state.cache == Seq::<char>::empty(),
{
}

/// A character at which no lexeme begins is passed over: the request
/// gives what it gives from behind that character.
pub proof fn law_blank_is_skipped(s: LexerView)
    requires
        !s.at_end(),
        !starts_lexeme(s.head()),
    ensures
        lex(s) == lex(s.step()),
{
}

/// Every request moves the cursor forward only. Unless it signals the
/// end of the input it consumes at least one character, so a text of `n`
/// characters is exhausted after at most `n` requests.
pub proof fn law_request_consumes(s: LexerView)
    ensures
        follows(s.code, lex(s).state.code),
        lex(s).state.code.rest.len() <= s.code.rest.len(),
        !(lex(s).result matches Err(LexerErrorView::EOF)) ==> lex(s).state.code.rest.len()
            < s.code.rest.len(),
{
    let t = LexerView { code: skip_blank(s.code), cache: Seq::empty() };
    lemma_skip_blank_moves(s.code);
    lemma_follows_suffix(s.code, t.code);
    if !t.at_end() {
        lemma_lexeme_outcome(t.mark());
        lemma_follows_from_same_place(t.mark().code, t.code, lexeme(t.mark()).state.code);
        lemma_follows_trans(s.code, t.code, lex(s).state.code);
    }
}

/// A token carries the column of the first character of its lexeme and
/// the line on which its lexeme ends.
pub proof fn law_token_position(s: LexerView)
    requires
        lex(s).result is Ok,
    ensures
        !skip_blank(s.code).at_end(),
        starts_lexeme(skip_blank(s.code).head()),
        lex(s).result->Ok_0.column == skip_blank(s.code).column,
        lex(s).result->Ok_0.line == lex(s).state.code.line,
        lex(s).result->Ok_0.line >= skip_blank(s.code).line,
        lex(s).state.code.column_start == skip_blank(s.code).column,
{
    let t = LexerView { code: skip_blank(s.code), cache: Seq::empty() };
    lemma_skip_blank_moves(s.code);
    lemma_lexeme_outcome(t.mark());
    lemma_follows_suffix(t.mark().code, lexeme(t.mark()).state.code);
}

/// A token that begins directly behind a line break is reported at column
/// 1 of a later line: of the line that follows the break, unless the
/// lexeme itself runs over a further line break.
pub proof fn law_token_after_line_break(s: LexerView)
    requires
        !s.at_end(),
        spec_is_line_terminator(s.head()),
        !s.step().at_end(),
        starts_lexeme(s.step().head()),
        lex(s).result is Ok,
    ensures
        lex(s).result->Ok_0.column == 1,
        lex(s).result->Ok_0.line >= s.code.line + 1,
        (forall|i: int|
            1 <= i < s.code.rest.len() - lex(s).state.code.rest.len() ==> !spec_is_line_break(
                s.code.rest[i],
            )) ==> lex(s).result->Ok_0.line == s.code.line + 1,
{
    let n = s.step();
    law_blank_is_skipped(s);
    law_token_position(n);
    assert(skip_blank(n.code) == n.code);
    let t = LexerView { code: n.code, cache: Seq::empty() };
    let l = lexeme(t.mark());
    lemma_lexeme_outcome(t.mark());
    lemma_follows_from_same_place(t.mark().code, n.code, l.state.code);
    if forall|i: int|
        1 <= i < s.code.rest.len() - lex(s).state.code.rest.len() ==> !spec_is_line_break(
            s.code.rest[i],
        ) {
        assert forall|i: int| 0 <= i < n.code.rest.len() - l.state.code.rest.len() implies
            !spec_is_line_break(n.code.rest[i]) by {
            assert(n.code.rest[i] == s.code.rest[i + 1]);
        }
        lemma_follows_on_one_line(n.code, l.state.code);
    }
}

/// A token has a numeric value exactly when its category is one of the
/// four numeric literals, and then the value is that of its text in the
/// radix of the category.
pub proof fn law_number_iff_numeric_category(s: LexerView)
    requires
        lex(s).result is Ok,
    ensures
        lex(s).result->Ok_0.number is Some <==> spec_is_numeric_token(
            lex(s).result->Ok_0.category,
        ),
        lex(s).result->Ok_0.number == numeric_value(
            lex(s).result->Ok_0.value,
            lex(s).result->Ok_0.category,
        ),
{
    let t = LexerView { code: skip_blank(s.code), cache: Seq::empty() };
    let m = t.mark();
    let c = m.head();
    if punctuator_category(c) is None && !(c == '\'' || c == '"') && spec_is_identifier_start(c) {
        let b = identifier_body(m.shift());
        assert(!spec_is_numeric_token(keyword_category(b.state.cache)));
    }
}

/// A request fails with the end-of-input signal or with one of the
/// failures of a lexeme. `IllegalCharacter` and `UnexpectedKeyword` are
/// never reported, and no numeric literal is refused as a number:
/// `InvalidBinaryNumber`, `InvalidOctalNumber` and `InvalidNumberSeq` are
/// never reported either.
pub proof fn law_failures(s: LexerView)
    ensures
        lex(s).result matches Err(e) ==> e is EOF || is_lexeme_failure(e),
{
    let t = LexerView { code: skip_blank(s.code), cache: Seq::empty() };
    if !t.at_end() {
        lemma_skip_blank_moves(s.code);
        lemma_lexeme_outcome(t.mark());
    }
}

// ---------------------------------------------------------------------
// Numeric literals always have a value
// ---------------------------------------------------------------------
/// Appending a digit to a text of digits gives a text of digits.
pub proof fn lemma_push_digit(text: Seq<char>, c: char, radix: nat)
    requires
        all_radix_digits(text, radix),
        is_radix_digit(c, radix),
    ensures
        all_radix_digits(text.push(c), radix),
{
    assert forall|i: int| 0 <= i < text.push(c).len() implies is_radix_digit(
        #[trigger] text.push(c)[i],
        radix,
    ) by {
        if i < text.len() {
            assert(text.push(c)[i] == text[i]);
        }
    }
}

/// A run of digits of a radix leaves digits of every radix that is no
/// smaller in the buffer, if such were in it.
pub proof fn lemma_digit_run_text(s: LexerView, radix: nat, wide: nat)
    requires
        radix <= wide,
        all_radix_digits(s.cache, wide),
    ensures
        all_radix_digits(digit_run(s, radix).cache, wide),
    decreases s.code.rest.len(),
{
    if !s.at_end() && is_radix_digit(s.head(), radix) {
        lemma_push_digit(s.cache, s.head(), wide);
        lemma_digit_run_text(s.shift(), radix, wide);
    } else if s.sees_char('_') {
        lemma_digit_run_text(s.step(), radix, wide);
    }
}

/// A run of decimal digits without an `8` or a `9` leaves octal digits in
/// the buffer, if such were in it.
pub proof fn lemma_legacy_run_text(s: LexerView)
    requires
        all_radix_digits(s.cache, 8),
        !run_has_high_digit(s.code),
    ensures
        all_radix_digits(digit_run(s, 10).cache, 8),
    decreases s.code.rest.len(),
{
    if !s.at_end() && is_radix_digit(s.head(), 10) {
        lemma_push_digit(s.cache, s.head(), 8);
        lemma_legacy_run_text(s.shift());
    } else if s.sees_char('_') {
        lemma_legacy_run_text(s.step());
    }
}

/// What the buffer holds during the scan of a decimal literal: digits,
/// and once the decimal point is seen, digits with that one point.
pub open spec fn is_decimal_so_far(text: Seq<char>, seen_point: bool) -> bool {
    if seen_point {
        is_decimal_text(text) && point_index(text) < text.len()
    } else {
        all_radix_digits(text, 10)
    }
}

/// Appending a digit to a decimal text with a point gives such a text.
pub proof fn lemma_push_fraction_digit(text: Seq<char>, c: char)
    requires
        is_decimal_so_far(text, true),
        is_radix_digit(c, 10),
    ensures
        is_decimal_so_far(text.push(c), true),
{
    let p = point_index(text) as int;
    let more = text.push(c);
    lemma_point_index_bound(text);
    assert forall|j: int| 0 <= j < p implies more[j] != '.' by {
        assert(more[j] == text[j]);
    }
    assert(more[p] == text[p]);
    lemma_point_index(more, p);
    assert(integer_part(more) =~= integer_part(text));
    assert(fraction_part(more) =~= fraction_part(text).push(c));
    lemma_push_digit(fraction_part(text), c, 10);
}

/// Appending a decimal point to digits gives a decimal text with a point.
pub proof fn lemma_push_point(text: Seq<char>)
    requires
        all_radix_digits(text, 10),
    ensures
        is_decimal_so_far(text.push('.'), true),
{
    let more = text.push('.');
    assert forall|j: int| 0 <= j < text.len() implies more[j] != '.' by {
        assert(more[j] == text[j]);
        assert(is_radix_digit(text[j], 10));
    }
    lemma_point_index(more, text.len() as int);
    assert(integer_part(more) =~= text);
    assert(fraction_part(more) =~= Seq::<char>::empty());
}

/// The scan of a decimal literal leaves a decimal text in the buffer and
/// fails only for a character that is out of place.
pub proof fn lemma_decimal_digits_text(s: LexerView, seen_point: bool, radix_prefix: bool)
    requires
        is_decimal_so_far(s.cache, seen_point),
    ensures
        decimal_digits(s, seen_point, radix_prefix).result is Ok ==> is_decimal_text(
            decimal_digits(s, seen_point, radix_prefix).state.cache,
        ),
        decimal_digits(s, seen_point, radix_prefix).result matches Err(e) ==> e
            is UnexpectedToken,
    decreases s.code.rest.len(),
{
    if !s.at_end() && is_ascii_digit(s.head()) {
        if seen_point {
            lemma_push_fraction_digit(s.cache, s.head());
        } else {
            lemma_push_digit(s.cache, s.head(), 10);
        }
        lemma_decimal_digits_text(s.shift(), seen_point, radix_prefix);
    } else if s.sees_char('.') {
        if !(radix_prefix || seen_point) {
            lemma_push_point(s.cache);
            lemma_decimal_digits_text(s.shift(), true, radix_prefix);
        }
    } else if s.sees_char('_') {
        lemma_decimal_digits_text(s.step(), seen_point, radix_prefix);
    } else if !seen_point {
        lemma_decimal_text_without_point(s.cache);
    }
}

/// A numeric lexeme that is scanned with an empty buffer gives a token
/// of a numeric category with a numeric value, or fails because a
/// character that is out of place stands in or behind the literal.
pub proof fn lemma_number_lexeme_result(m: LexerView)
    requires
        !m.at_end(),
        is_ascii_digit(m.head()),
        m.cache == Seq::<char>::empty(),
    ensures
        lexeme(m).result matches Ok(t) ==> spec_is_numeric_token(t.category) && t.number is Some,
        lexeme(m).result matches Err(e) ==> e is UnexpectedToken,
{
    let none = Seq::<char>::empty();
    if m.head() == '0' {
        let z = m.step();
        if z.sees_char('o') || z.sees_char('O') {
            lemma_digit_run_text(z.step(), 8, 8);
        } else if z.sees_char('b') || z.sees_char('B') {
            lemma_digit_run_text(z.step(), 2, 2);
        } else if z.sees_char('x') || z.sees_char('X') {
            lemma_digit_run_text(z.step(), 16, 16);
        } else if !z.at_end() && is_ascii_digit(z.head()) {
            if run_has_high_digit(z.code) {
                lemma_digit_run_text(z, 10, 10);
                lemma_decimal_text_without_point(digit_run(z, 10).cache);
            } else {
                lemma_legacy_run_text(z);
            }
        } else {
            lemma_push_digit(none, '0', 10);
            lemma_decimal_text_without_point(none.push('0'));
        }
    } else {
        lemma_decimal_digits_text(m, false, false);
    }
}

/// A numeric literal is never refused for its size: a request that finds
/// a digit at the start of the lexeme hands out a token of a numeric
/// category with a numeric value, or fails because a character that is
/// out of place stands in or behind the literal.
pub proof fn law_numeric_literal_has_value(s: LexerView)
    requires
        !skip_blank(s.code).at_end(),
        is_ascii_digit(skip_blank(s.code).head()),
    ensures
        lex(s).result matches Ok(t) ==> spec_is_numeric_token(t.category) && t.number is Some,
        lex(s).result matches Err(e) ==> e is UnexpectedToken,
{
    let t = LexerView { code: skip_blank(s.code), cache: Seq::empty() };
    lemma_number_lexeme_result(t.mark());
}

} // verus!
