//! Numeric parsing: the value of a text of digits in radix 2, 8, 10 or 16.
//! Every text of digits has a value. Where the digits do not fit in 64
//! bits the leading ones that fit are kept and the others counted, so the
//! value is cut off, never wrapped. A decimal may have a fraction, of
//! which as many digits are kept as fit with the digits before the point.

use crate::lexer::token::{hex_digit_value, spec_is_hex_digit, NumericValue, TokenType};
use vstd::prelude::*;

verus! {

broadcast use vstd::string::group_string_axioms;

/// A digit of the given radix (2 to 16).
pub open spec fn is_radix_digit(c: char, radix: nat) -> bool {
    spec_is_hex_digit(c) && hex_digit_value(c) < radix
}

/// A text that consists of digits of the given radix.
pub open spec fn all_radix_digits(s: Seq<char>, radix: nat) -> bool {
    forall|i: int| 0 <= i < s.len() ==> is_radix_digit(#[trigger] s[i], radix)
}

/// The number reached from `acc` by appending the digits of `s` in the
/// given radix.
pub open spec fn radix_fold(acc: nat, s: Seq<char>, radix: nat) -> nat
    decreases s.len(),
{
    if s.len() == 0 {
        acc
    } else {
        radix_fold(acc, s.drop_last(), radix) * radix + hex_digit_value(s.last())
    }
}

/// The number that the digits of `s` denote in the given radix.
pub open spec fn radix_value(s: Seq<char>, radix: nat) -> nat {
    radix_fold(0, s, radix)
}

/// Index of the first decimal point of `s`, or its length if it has none.
pub open spec fn point_index(s: Seq<char>) -> nat
    decreases s.len(),
{
    if s.len() == 0 || s[0] == '.' {
        0
    } else {
        1 + point_index(s.drop_first())
    }
}

/// The digits before the first decimal point.
pub open spec fn integer_part(s: Seq<char>) -> Seq<char> {
    s.take(point_index(s) as int)
}

/// The digits behind the first decimal point; empty if there is no point.
pub open spec fn fraction_part(s: Seq<char>) -> Seq<char> {
    if point_index(s) < s.len() {
        s.skip(point_index(s) as int + 1)
    } else {
        Seq::empty()
    }
}

/// Decimal digits with at most one decimal point among them.
pub open spec fn is_decimal_text(s: Seq<char>) -> bool {
    all_radix_digits(integer_part(s), 10) && all_radix_digits(fraction_part(s), 10)
}

/// How many leading digits of `s` are kept behind the number `acc`: all
/// of them if they fit in 64 bits together with `acc`, otherwise as many
/// as do.
pub open spec fn kept_digits(acc: nat, s: Seq<char>, radix: nat) -> nat
    decreases s.len(),
{
    if s.len() == 0 || radix_fold(acc, s, radix) <= u64::MAX {
        s.len()
    } else {
        kept_digits(acc, s.drop_last(), radix)
    }
}

/// The value of a text of digits in the given radix: the number that its
/// kept digits denote, and how many digits behind them were dropped. Where
/// all digits fit in 64 bits none is dropped and the value is exact.
pub open spec fn integer_value(s: Seq<char>, radix: nat) -> Option<NumericValue> {
    if all_radix_digits(s, radix) {
        let kept = kept_digits(0, s, radix);
        Some(
            NumericValue {
                digits: radix_value(s.take(kept as int), radix) as u64,
                radix: radix as u32,
                scale: 0,
                dropped: (s.len() - kept) as usize,
            },
        )
    } else {
        None
    }
}

/// The value of a decimal text. Where the digits before the point fit in
/// 64 bits they are followed by the kept digits of the fraction, whose
/// number is the scale. Where they do not fit, the value is that of the
/// digits before the point alone.
pub open spec fn decimal_value(s: Seq<char>) -> Option<NumericValue> {
    if is_decimal_text(s) {
        let whole = radix_value(integer_part(s), 10);
        if whole <= u64::MAX {
            let kept = kept_digits(whole, fraction_part(s), 10);
            Some(
                NumericValue {
                    digits: radix_fold(whole, fraction_part(s).take(kept as int), 10) as u64,
                    radix: 10,
                    scale: kept as usize,
                    dropped: 0,
                },
            )
        } else {
            integer_value(integer_part(s), 10)
        }
    } else {
        None
    }
}

/// The radix of a numeric category.
pub open spec fn category_radix(tp: TokenType) -> nat {
    match tp {
        TokenType::NUMERIC_LITERAL_BINARY => 2,
        TokenType::NUMERIC_LITERAL_OCTAL => 8,
        TokenType::NUMERIC_LITERAL_HEX => 16,
        _ => 10,
    }
}

/// Whether the text is well formed for a numeric category: digits of its
/// radix, for a decimal with at most one decimal point among them.
pub open spec fn is_numeric_text(s: Seq<char>, tp: TokenType) -> bool {
    match tp {
        TokenType::NUMERIC_LITERAL_BINARY
        | TokenType::NUMERIC_LITERAL_OCTAL
        | TokenType::NUMERIC_LITERAL_HEX => all_radix_digits(s, category_radix(tp)),
        TokenType::NUMERIC_LITERAL_DECIMAL => is_decimal_text(s),
        _ => false,
    }
}

/// The value of a numeric lexeme of the given category. It is present
/// exactly where the category is numeric and the text well formed for it.
pub open spec fn numeric_value(s: Seq<char>, tp: TokenType) -> Option<NumericValue> {
    match tp {
        TokenType::NUMERIC_LITERAL_BINARY => integer_value(s, 2),
        TokenType::NUMERIC_LITERAL_OCTAL => integer_value(s, 8),
        TokenType::NUMERIC_LITERAL_HEX => integer_value(s, 16),
        TokenType::NUMERIC_LITERAL_DECIMAL => decimal_value(s),
        _ => None,
    }
}

/// A numeric value is present exactly where the category is numeric and
/// the text is well formed for it.
pub proof fn lemma_numeric_value_present(s: Seq<char>, tp: TokenType)
    ensures
        numeric_value(s, tp) is Some <==> is_numeric_text(s, tp),
{
}

/// A prefix of a text of digits never denotes more than the whole text.
pub proof fn lemma_radix_fold_prefix(acc: nat, s: Seq<char>, radix: nat, k: int)
    requires
        radix >= 1,
        0 <= k <= s.len(),
    ensures
        radix_fold(acc, s.take(k), radix) <= radix_fold(acc, s, radix),
    decreases s.len(),
{
    if k == s.len() {
        assert(s.take(k) =~= s);
    } else {
        assert(s.drop_last().take(k) =~= s.take(k));
        lemma_radix_fold_prefix(acc, s.drop_last(), radix, k);
        let v = radix_fold(acc, s.drop_last(), radix);
        assert(v * radix >= v) by (nonlinear_arith)
            requires
                radix >= 1,
                v >= 0,
        ;
    }
}

/// The kept digits fit in 64 bits behind `acc`, and one digit more would
/// not; where all digits fit, all are kept.
pub proof fn lemma_kept_digits(acc: nat, s: Seq<char>, radix: nat)
    requires
        acc <= u64::MAX,
        radix >= 1,
    ensures
        kept_digits(acc, s, radix) <= s.len(),
        radix_fold(acc, s.take(kept_digits(acc, s, radix) as int), radix) <= u64::MAX,
        kept_digits(acc, s, radix) < s.len() ==> radix_fold(
            acc,
            s.take(kept_digits(acc, s, radix) as int + 1),
            radix,
        ) > u64::MAX,
        kept_digits(acc, s, radix) < s.len() ==> radix_fold(acc, s, radix) > u64::MAX,
        radix_fold(acc, s, radix) <= u64::MAX ==> kept_digits(acc, s, radix) == s.len(),
    decreases s.len(),
{
    if s.len() == 0 || radix_fold(acc, s, radix) <= u64::MAX {
        assert(s.take(s.len() as int) =~= s);
    } else {
        let init = s.drop_last();
        let k = kept_digits(acc, init, radix);
        lemma_kept_digits(acc, init, radix);
        assert(init.take(k as int) =~= s.take(k as int));
        if k < init.len() {
            assert(init.take(k as int + 1) =~= s.take(k as int + 1));
        } else {
            assert(s.take(k as int + 1) =~= s);
        }
    }
}

/// Where the digits stop fitting, there the kept digits end.
pub proof fn lemma_kept_digits_stops(acc: nat, s: Seq<char>, radix: nat, k: nat)
    requires
        radix >= 1,
        k < s.len(),
        radix_fold(acc, s.take(k as int), radix) <= u64::MAX,
        radix_fold(acc, s.take(k as int + 1), radix) > u64::MAX,
    ensures
        kept_digits(acc, s, radix) == k,
    decreases s.len(),
{
    lemma_radix_fold_prefix(acc, s, radix, k as int + 1);
    let init = s.drop_last();
    assert(radix_fold(acc, s, radix) > u64::MAX) by {
        if s.len() == k + 1 {
            assert(s.take(k as int + 1) =~= s);
        }
    }
    assert(kept_digits(acc, s, radix) == kept_digits(acc, init, radix));
    if s.len() == k + 1 {
        assert(init =~= s.take(k as int));
        assert(kept_digits(acc, init, radix) == init.len());
    } else {
        assert(init.take(k as int) =~= s.take(k as int));
        assert(init.take(k as int + 1) =~= s.take(k as int + 1));
        lemma_kept_digits_stops(acc, init, radix, k);
    }
}

/// A text of digits that fits in 64 bits has its exact value.
pub proof fn lemma_integer_value_exact(s: Seq<char>, radix: nat)
    requires
        radix >= 1,
        all_radix_digits(s, radix),
        radix_value(s, radix) <= u64::MAX,
    ensures
        integer_value(s, radix) == Some(
            NumericValue {
                digits: radix_value(s, radix) as u64,
                radix: radix as u32,
                scale: 0,
                dropped: 0,
            },
        ),
{
    lemma_kept_digits(0, s, radix);
    assert(s.take(s.len() as int) =~= s);
}

/// Folding over a concatenation folds over its parts in turn.
pub proof fn lemma_radix_fold_concat(acc: nat, a: Seq<char>, b: Seq<char>, radix: nat)
    ensures
        radix_fold(acc, a + b, radix) == radix_fold(radix_fold(acc, a, radix), b, radix),
    decreases b.len(),
{
    if b.len() == 0 {
        assert(a + b =~= a);
    } else {
        assert((a + b).drop_last() =~= a + b.drop_last());
        lemma_radix_fold_concat(acc, a, b.drop_last(), radix);
    }
}

/// The first position that holds a decimal point is the point index.
pub proof fn lemma_point_index(s: Seq<char>, p: int)
    requires
        0 <= p <= s.len(),
        forall|j: int| 0 <= j < p ==> s[j] != '.',
        p < s.len() ==> s[p] == '.',
    ensures
        point_index(s) == p,
    decreases s.len(),
{
    if s.len() == 0 || s[0] == '.' {
    } else {
        let t = s.drop_first();
        assert forall|j: int| 0 <= j < p - 1 implies t[j] != '.' by {
            assert(t[j] == s[j + 1]);
        }
        lemma_point_index(t, p - 1);
    }
}

/// Value of an ASCII digit in radix 16, if the byte is one.
fn hex_digit_of_byte(b: u8) -> (r: Option<u64>)
    ensures
        r == if spec_is_hex_digit(b as char) {
            Some(hex_digit_value(b as char) as u64)
        } else {
            None
        },
{
    if b >= 48 && b <= 57 {
        Some((b - 48) as u64)
    } else if b >= 97 && b <= 102 {
        Some((b - 97 + 10) as u64)
    } else if b >= 65 && b <= 70 {
        Some((b - 65 + 10) as u64)
    } else {
        None
    }
}

/// What folding a text of digits gives: the number that the kept digits
/// denote and how many digits were kept.
struct Folded {
    value: u64,
    kept: usize,
}

/// Folds the bytes `x[start..end]`, which spell the characters
/// `s[start..end]`, into `init` as digits of the given radix: digits are
/// appended as long as the number fits in 64 bits, and counted.
fn fold_digits(
    x: &[u8],
    start: usize,
    end: usize,
    radix: u64,
    init: u64,
    Ghost(s): Ghost<Seq<char>>,
) -> (r: Option<Folded>)
    requires
        2 <= radix <= 16,
        start <= end <= x@.len(),
        x@.len() == s.len(),
        forall|i: int| 0 <= i < s.len() ==> s[i] == #[trigger] x@[i] as char,
    ensures
        ({
            let part = s.subrange(start as int, end as int);
            let kept = kept_digits(init as nat, part, radix as nat);
            r == if all_radix_digits(part, radix as nat) {
                Some(
                    Folded {
                        value: radix_fold(init as nat, part.take(kept as int), radix as nat) as u64,
                        kept: kept as usize,
                    },
                )
            } else {
                None
            }
        }),
        r matches Some(f) ==> f.kept <= end - start && f.kept == kept_digits(
            init as nat,
            s.subrange(start as int, end as int),
            radix as nat,
        ) && f.value == radix_fold(
            init as nat,
            s.subrange(start as int, end as int).take(f.kept as int),
            radix as nat,
        ),
{
    let ghost part = s.subrange(start as int, end as int);
    let mut acc: u64 = init;
    let mut kept: usize = 0;
    let mut full = false;
    let mut i: usize = start;
    assert(part.take(0) =~= Seq::<char>::empty());
    while i < end
        invariant
            2 <= radix <= 16,
            start <= i <= end <= x@.len(),
            x@.len() == s.len(),
            forall|k: int| 0 <= k < s.len() ==> s[k] == #[trigger] x@[k] as char,
            part == s.subrange(start as int, end as int),
            all_radix_digits(part.take(i - start), radix as nat),
            kept <= i - start,
            acc == radix_fold(init as nat, part.take(kept as int), radix as nat),
            !full ==> kept == i - start,
            full ==> kept < i - start && radix_fold(
                init as nat,
                part.take(kept as int + 1),
                radix as nat,
            ) > u64::MAX,
        decreases end - i,
    {
        let ghost c = s[i as int];
        let ghost next = part.take(i - start + 1);
        assert(next.drop_last() =~= part.take(i - start));
        assert(next.last() == c);
        assert(part[i - start] == c);
        let d = match hex_digit_of_byte(x[i]) {
            Some(d) => d,
            None => {
                return None;
            },
        };
        if d >= radix {
            return None;
        }
        if !full {
            let more = match acc.checked_mul(radix) {
                Some(m) => m.checked_add(d),
                None => None,
            };
            match more {
                Some(v) => {
                    acc = v;
                    kept = kept + 1;
                },
                None => {
                    full = true;
                },
            }
        }
        i = i + 1;
        assert forall|k: int| 0 <= k < next.len() implies is_radix_digit(
            #[trigger] next[k],
            radix as nat,
        ) by {
            if k < next.len() - 1 {
                assert(next[k] == part.take(i - 1 - start)[k]);
            }
        }
    }
    proof {
        assert(part.take(end - start) =~= part);
        if full {
            lemma_kept_digits_stops(init as nat, part, radix as nat, kept as nat);
        } else {
            lemma_kept_digits(init as nat, part, radix as nat);
        }
    }
    Some(Folded { value: acc, kept })
}

/// The error text of the numeric parsers.
fn invalid_number() -> (r: String)
    ensures
        r@ == "invalid number"@,
{
    "invalid number".to_owned()
}

/// Parses a text of digits in the given radix.
fn parse_radix_number(s: &str, radix: u32) -> (r: Result<NumericValue, String>)
    requires
        2 <= radix <= 16,
    ensures
        match r {
            Ok(v) => integer_value(s@, radix as nat) == Some(v),
            Err(e) => integer_value(s@, radix as nat) is None && e@ == "invalid number"@,
        },
{
    if !s.is_ascii() {
        return Err(invalid_number());
    }
    let x = s.as_bytes();
    assert(s@.subrange(0, s@.len() as int) =~= s@);
    match fold_digits(x, 0, x.len(), radix as u64, 0, Ghost(s@)) {
        Some(f) => Ok(
            NumericValue { digits: f.value, radix, scale: 0, dropped: x.len() - f.kept },
        ),
        None => Err(invalid_number()),
    }
}

/// Parses a text of binary digits. Every such text has a value.
pub fn parse_binary_number(s: &str) -> (r: Result<NumericValue, String>)
    ensures
        match r {
            Ok(v) => integer_value(s@, 2) == Some(v),
            Err(e) => !all_radix_digits(s@, 2) && e@ == "invalid number"@,
        },
{
    parse_radix_number(s, 2)
}

/// Parses a text of decimal digits. Every such text has a value.
pub fn parse_decimal_int(s: &str) -> (r: Result<NumericValue, String>)
    ensures
        match r {
            Ok(v) => integer_value(s@, 10) == Some(v),
            Err(e) => !all_radix_digits(s@, 10) && e@ == "invalid number"@,
        },
{
    parse_radix_number(s, 10)
}

/// Parses a text of octal digits. Every such text has a value.
pub fn parse_octal_number(s: &str) -> (r: Result<NumericValue, String>)
    ensures
        match r {
            Ok(v) => integer_value(s@, 8) == Some(v),
            Err(e) => !all_radix_digits(s@, 8) && e@ == "invalid number"@,
        },
{
    parse_radix_number(s, 8)
}

/// Parses a text of hexadecimal digits. Every such text has a value.
pub fn parse_hex_number(s: &str) -> (r: Result<NumericValue, String>)
    ensures
        match r {
            Ok(v) => integer_value(s@, 16) == Some(v),
            Err(e) => !all_radix_digits(s@, 16) && e@ == "invalid number"@,
        },
{
    parse_radix_number(s, 16)
}

/// Parses decimal digits with an optional decimal point. Every such text
/// has a value.
pub fn parse_decimal_number(s: &str) -> (r: Result<NumericValue, String>)
    ensures
        match r {
            Ok(v) => decimal_value(s@) == Some(v),
            Err(e) => !is_decimal_text(s@) && e@ == "invalid number"@,
        },
{
    if !s.is_ascii() {
        proof {
            let p = point_index(s@) as int;
            lemma_point_index_bound(s@);
            if is_decimal_text(s@) {
                assert forall|i: int| 0 <= i < s@.len() implies '\0' <= #[trigger] s@[i]
                    <= '\u{7f}' by {
                    if i < p {
                        assert(integer_part(s@)[i] == s@[i]);
                    } else if i > p {
                        assert(fraction_part(s@)[i - p - 1] == s@[i]);
                    }
                }
            }
        }
        return Err(invalid_number());
    }
    let x = s.as_bytes();
    let mut p: usize = 0;
    while p < x.len() && x[p] != 46
        invariant
            p <= x@.len(),
            x@.len() == s@.len(),
            forall|k: int| 0 <= k < s@.len() ==> s@[k] == #[trigger] x@[k] as char,
            forall|j: int| 0 <= j < p ==> s@[j] != '.',
        decreases x.len() - p,
    {
        p = p + 1;
    }
    proof {
        lemma_point_index(s@, p as int);
        assert(s@.subrange(0, p as int) =~= integer_part(s@));
        lemma_kept_digits(0, integer_part(s@), 10);
    }
    let whole = match fold_digits(x, 0, p, 10, 0, Ghost(s@)) {
        Some(f) => f,
        None => {
            return Err(invalid_number());
        },
    };
    if p == x.len() {
        assert(fraction_part(s@).take(0) =~= Seq::<char>::empty());
        if whole.kept == p {
            assert(integer_part(s@).take(p as int) =~= integer_part(s@));
        }
        return Ok(
            NumericValue { digits: whole.value, radix: 10, scale: 0, dropped: p - whole.kept },
        );
    }
    proof {
        assert(s@.subrange(p as int + 1, s@.len() as int) =~= fraction_part(s@));
    }
    if whole.kept < p {
        return match fold_digits(x, p + 1, x.len(), 10, 0, Ghost(s@)) {
            Some(_) => Ok(
                NumericValue { digits: whole.value, radix: 10, scale: 0, dropped: p - whole.kept },
            ),
            None => Err(invalid_number()),
        };
    }
    assert(integer_part(s@).take(p as int) =~= integer_part(s@));
    match fold_digits(x, p + 1, x.len(), 10, whole.value, Ghost(s@)) {
        Some(f) => Ok(NumericValue { digits: f.value, radix: 10, scale: f.kept, dropped: 0 }),
        None => Err(invalid_number()),
    }
}

/// The point index lies within the text, a decimal point stands there
/// unless it is the end, and none stands before it.
pub proof fn lemma_point_index_bound(s: Seq<char>)
    ensures
        point_index(s) <= s.len(),
        point_index(s) < s.len() ==> s[point_index(s) as int] == '.',
        forall|j: int| 0 <= j < point_index(s) ==> s[j] != '.',
    decreases s.len(),
{
    if s.len() == 0 || s[0] == '.' {
    } else {
        let t = s.drop_first();
        lemma_point_index_bound(t);
        assert forall|j: int| 0 <= j < point_index(s) implies s[j] != '.' by {
            if j > 0 {
                assert(s[j] == t[j - 1]);
            }
        }
    }
}

/// Decimal digits without a decimal point are their own integer part
/// and have the value of an integer.
pub proof fn lemma_decimal_text_without_point(text: Seq<char>)
    requires
        all_radix_digits(text, 10),
    ensures
        integer_part(text) == text,
        fraction_part(text) == Seq::<char>::empty(),
        decimal_value(text) == integer_value(text, 10),
{
    lemma_point_index(text, text.len() as int);
    assert(text.take(text.len() as int) =~= text);
    assert(Seq::<char>::empty().take(0) =~= Seq::<char>::empty());
    if radix_value(text, 10) <= u64::MAX {
        lemma_integer_value_exact(text, 10);
    }
}

/// Parses the text of a numeric lexeme according to its category. Any
/// other category has no numeric value.
pub fn parse_numeric(s: &str, tp: &TokenType) -> (r: Result<NumericValue, String>)
    ensures
        match r {
            Ok(v) => numeric_value(s@, *tp) == Some(v),
            Err(e) => !is_numeric_text(s@, *tp) && e@ == "invalid number"@,
        },
{
    match tp {
        TokenType::NUMERIC_LITERAL_BINARY => parse_binary_number(s),
        TokenType::NUMERIC_LITERAL_DECIMAL => parse_decimal_number(s),
        TokenType::NUMERIC_LITERAL_OCTAL => parse_octal_number(s),
        TokenType::NUMERIC_LITERAL_HEX => parse_hex_number(s),
        _ => Err(invalid_number()),
    }
}

} // verus!
