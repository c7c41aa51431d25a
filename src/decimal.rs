//! Reading decimal numbers such as `3.5`, `-200000` or `+30` into fixed point.
use vstd::prelude::*;

verus! {

/// ASCII code of `0`.
pub const DIGIT_ZERO: u8 = 48;

/// ASCII code of `.`.
pub const DECIMAL_POINT: u8 = 46;

/// The byte is an ASCII decimal digit.
pub open spec fn is_digit(c: u8) -> bool {
    48 <= c <= 57
}

/// Every byte of the sequence is a decimal digit.
pub open spec fn all_digits(s: Seq<u8>) -> bool {
    forall|i: int| 0 <= i < s.len() ==> is_digit(#[trigger] s[i])
}

/// The number that a sequence of digits writes in base ten (zero when empty).
pub open spec fn digits_value(s: Seq<u8>) -> int
    decreases s.len(),
{
    if s.len() == 0 {
        0
    } else {
        digits_value(s.drop_last()) * 10 + (s.last() - DIGIT_ZERO)
    }
}

/// Position of the first decimal point, or the length when there is none.
pub open spec fn point_index(s: Seq<u8>) -> int
    decreases s.len(),
{
    if s.len() == 0 {
        0
    } else if s[0] == DECIMAL_POINT {
        0
    } else {
        1 + point_index(s.drop_first())
    }
}

/// The digits before the decimal point.
pub open spec fn whole_part(s: Seq<u8>) -> Seq<u8> {
    s.take(point_index(s))
}

/// The digits after the decimal point (empty when there is none).
pub open spec fn fraction_part(s: Seq<u8>) -> Seq<u8> {
    if point_index(s) < s.len() {
        s.skip(point_index(s) + 1)
    } else {
        Seq::empty()
    }
}

/// Digits, optionally one decimal point and more digits, at least one digit in all.
pub open spec fn is_decimal(s: Seq<u8>) -> bool {
    &&& all_digits(whole_part(s))
    &&& all_digits(fraction_part(s))
    &&& whole_part(s).len() + fraction_part(s).len() >= 1
}

/// The `k`-th of the `scale` fraction digits kept: digits past `scale` are
/// dropped, missing ones read as zero.
pub open spec fn kept_fraction_digit(frac: Seq<u8>, k: int) -> u8 {
    if k < frac.len() { frac[k] } else { DIGIT_ZERO }
}

/// The fraction digits kept at `scale` places.
pub open spec fn kept_fraction(frac: Seq<u8>, scale: nat) -> Seq<u8> {
    Seq::new(scale, |k: int| kept_fraction_digit(frac, k))
}

/// The number written in `s`, times `10^scale`, with further fraction digits dropped.
pub open spec fn scaled_value(s: Seq<u8>, scale: nat) -> int {
    digits_value(whole_part(s) + kept_fraction(fraction_part(s), scale))
}

proof fn lemma_point_index(s: Seq<u8>, i: int)
    requires
        0 <= i <= s.len(),
        forall|j: int| 0 <= j < i ==> s[j] != DECIMAL_POINT,
        i == s.len() || s[i] == DECIMAL_POINT,
    ensures
        point_index(s) == i,
    decreases i,
{
    if i > 0 {
        let t = s.drop_first();
        assert forall|j: int| 0 <= j < i - 1 implies t[j] != DECIMAL_POINT by {
            assert(t[j] == s[j + 1]);
        }
        lemma_point_index(t, i - 1);
    }
}

proof fn lemma_digits_value_nonneg(s: Seq<u8>)
    requires
        all_digits(s),
    ensures
        digits_value(s) >= 0,
    decreases s.len(),
{
    if s.len() > 0 {
        assert(all_digits(s.drop_last()));
        lemma_digits_value_nonneg(s.drop_last());
    }
}

/// Each further digit keeps the value at least as large as the value so far.
proof fn lemma_digits_value_prefix(s: Seq<u8>, i: int)
    requires
        all_digits(s),
        0 <= i <= s.len(),
    ensures
        digits_value(s.take(i)) <= digits_value(s),
    decreases s.len() - i,
{
    if i < s.len() {
        lemma_digits_value_prefix(s, i + 1);
        assert(s.take(i + 1).drop_last() =~= s.take(i));
        assert(all_digits(s.take(i)));
        lemma_digits_value_nonneg(s.take(i));
    } else {
        assert(s.take(i) =~= s);
    }
}

/// The kept fraction digits are digits when the fraction is.
proof fn lemma_kept_fraction_digits(frac: Seq<u8>, scale: nat)
    requires
        all_digits(frac),
    ensures
        all_digits(kept_fraction(frac, scale)),
{
    assert forall|k: int| 0 <= k < scale implies is_digit(#[trigger] kept_fraction(frac, scale)[k]) by {
        if k < frac.len() {
            assert(is_digit(frac[k]));
        }
    }
}

/// Reads `text` as a non-negative decimal number times `10^scale`, dropping
/// fraction digits past `scale`. `None` when the text is not of that form or
/// the value exceeds `max`.
fn parse_unsigned(text: &[u8], scale: usize, max: u64) -> (r: Option<u64>)
    ensures
        r is Some <==> (is_decimal(text@) && scaled_value(text@, scale as nat) <= max),
        r matches Some(v) ==> v == scaled_value(text@, scale as nat),
{
    let len: usize = text.len();
    let mut point: usize = 0;
    while point < len && text[point] != DECIMAL_POINT
        invariant
            point <= len,
            len == text@.len(),
            forall|j: int| 0 <= j < point ==> text@[j] != DECIMAL_POINT,
        decreases len - point,
    {
        point = point + 1;
    }
    proof {
        lemma_point_index(text@, point as int);
    }
    let ghost whole = whole_part(text@);
    let ghost frac = fraction_part(text@);
    let frac_start: usize = if point < len { point + 1 } else { len };
    assert(frac =~= text@.subrange(frac_start as int, len as int));
    assert(whole =~= text@.subrange(0, point as int));
    if point + (len - frac_start) == 0 {
        return None;
    }
    let mut j: usize = 0;
    while j < len
        invariant
            point <= len,
            len == text@.len(),
            frac_start == (if point < len { point + 1 } else { len as int }),
            whole =~= text@.subrange(0, point as int),
            frac =~= text@.subrange(frac_start as int, len as int),
            whole == whole_part(text@),
            frac == fraction_part(text@),
            j <= len,
            forall|k: int| 0 <= k < j && k != point ==> is_digit(#[trigger] text@[k]),
        decreases len - j,
    {
        if j != point && (text[j] < 48 || text[j] > 57) {
            proof {
                if j < point {
                    assert(whole[j as int] == text@[j as int]);
                    assert(!is_digit(whole[j as int]));
                } else {
                    assert(frac[j - frac_start] == text@[j as int]);
                    assert(!is_digit(frac[j - frac_start]));
                }
            }
            return None;
        }
        j = j + 1;
    }
    assert(all_digits(whole)) by {
        assert forall|k: int| 0 <= k < whole.len() implies is_digit(#[trigger] whole[k]) by {
            assert(whole[k] == text@[k]);
        }
    }
    assert(all_digits(frac)) by {
        assert forall|k: int| 0 <= k < frac.len() implies is_digit(#[trigger] frac[k]) by {
            assert(frac[k] == text@[k + frac_start]);
        }
    }
    proof {
        lemma_kept_fraction_digits(frac, scale as nat);
    }
    let ghost digits = whole + kept_fraction(frac, scale as nat);
    assert(all_digits(digits));
    let mut acc: u64 = 0;
    let mut i: usize = 0;
    while i < point
        invariant
            point <= len,
            len == text@.len(),
            whole =~= text@.subrange(0, point as int),
            digits == whole + kept_fraction(frac, scale as nat),
            all_digits(digits),
            whole == whole_part(text@),
            frac == fraction_part(text@),
            all_digits(whole),
            all_digits(frac),
            whole.len() + frac.len() >= 1,
            digits.len() == point + scale,
            i <= point,
            acc <= max,
            acc == digits_value(digits.take(i as int)),
        decreases point - i,
    {
        assert(text@[i as int] == digits[i as int]);
        match push_digit(Ghost(digits), Ghost(i as int), acc, text[i], max) {
            Some(v) => acc = v,
            None => return None,
        }
        i = i + 1;
    }
    let frac_len: usize = len - frac_start;
    let mut k: usize = 0;
    while k < scale
        invariant
            point <= len,
            len == text@.len(),
            frac_len == frac.len(),
            frac_start + frac_len == len,
            frac =~= text@.subrange(frac_start as int, len as int),
            digits == whole + kept_fraction(frac, scale as nat),
            all_digits(digits),
            whole == whole_part(text@),
            frac == fraction_part(text@),
            all_digits(whole),
            all_digits(frac),
            whole.len() + frac.len() >= 1,
            digits.len() == point + scale,
            k <= scale,
            acc <= max,
            acc == digits_value(digits.take(point + k)),
        decreases scale - k,
    {
        let c: u8 = if k < frac_len { text[frac_start + k] } else { DIGIT_ZERO };
        assert(c == digits[point + k]);
        match push_digit(Ghost(digits), Ghost(point + k), acc, c, max) {
            Some(v) => acc = v,
            None => return None,
        }
        k = k + 1;
    }
    assert(digits.take(point + scale) =~= digits);
    Some(acc)
}

/// Appends digit `c`, the `i`-th of `digits`, to the value `acc` of the digits
/// before it. `None` exactly when the whole number then exceeds `max`.
fn push_digit(digits: Ghost<Seq<u8>>, i: Ghost<int>, acc: u64, c: u8, max: u64) -> (r: Option<u64>)
    requires
        all_digits(digits@),
        0 <= i@ < digits@.len(),
        digits@[i@] == c,
        acc == digits_value(digits@.take(i@)),
    ensures
        r is None ==> digits_value(digits@) > max,
        r matches Some(v) ==> v <= max && v == digits_value(digits@.take(i@ + 1)),
{
    assert(is_digit(digits@[i@]));
    assert(digits@.take(i@ + 1).drop_last() =~= digits@.take(i@));
    let d: u64 = (c - DIGIT_ZERO) as u64;
    if d > max || acc > (max - d) / 10 {
        proof {
            if d <= max {
                crate::arith::lemma_div_bounds_exact(max - d, 10);
            }
            lemma_digits_value_nonneg(digits@.take(i@));
            assert(all_digits(digits@.take(i@)));
            lemma_digits_value_prefix(digits@, i@ + 1);
        }
        return None;
    }
    proof {
        crate::arith::lemma_div_bounds_exact(max - d, 10);
    }
    Some(acc * 10 + d)
}

/// Reads `text` as a non-negative whole number written in decimal digits.
/// `None` when it is empty, holds anything but digits, or exceeds `max`.
fn parse_digits(text: &[u8], max: u64) -> (r: Option<u64>)
    ensures
        r is Some <==> (text@.len() >= 1 && all_digits(text@) && digits_value(text@) <= max),
        r matches Some(v) ==> v == digits_value(text@),
{
    let len: usize = text.len();
    let mut j: usize = 0;
    while j < len
        invariant
            len == text@.len(),
            j <= len,
            forall|k: int| 0 <= k < j ==> is_digit(#[trigger] text@[k]),
        decreases len - j,
    {
        if text[j] < 48 || text[j] > 57 {
            return None;
        }
        j = j + 1;
    }
    proof {
        lemma_point_index(text@, len as int);
        assert(whole_part(text@) =~= text@);
        assert(fraction_part(text@) =~= Seq::<u8>::empty());
        assert(whole_part(text@) + kept_fraction(fraction_part(text@), 0) =~= text@);
    }
    parse_unsigned(text, 0, max)
}

/// ASCII code of `-`.
pub const MINUS_SIGN: u8 = 45;

/// ASCII code of `+`.
pub const PLUS_SIGN: u8 = 43;

/// The text starts with a sign.
pub open spec fn has_sign(s: Seq<u8>) -> bool {
    s.len() > 0 && (s[0] == MINUS_SIGN || s[0] == PLUS_SIGN)
}

/// The text starts with a minus sign.
pub open spec fn is_negative(s: Seq<u8>) -> bool {
    s.len() > 0 && s[0] == MINUS_SIGN
}

/// The text after its sign, if it has one.
pub open spec fn unsigned_part(s: Seq<u8>) -> Seq<u8> {
    if has_sign(s) { s.drop_first() } else { s }
}

/// The number written in `s`, sign included, times `10^scale`.
pub open spec fn signed_scaled_value(s: Seq<u8>, scale: nat) -> int {
    if is_negative(s) {
        -scaled_value(unsigned_part(s), scale)
    } else {
        scaled_value(unsigned_part(s), scale)
    }
}

/// Strips a leading sign.
fn strip_sign(text: &[u8]) -> (r: &[u8])
    ensures
        r@ == unsigned_part(text@),
{
    if text.len() > 0 && (text[0] == MINUS_SIGN || text[0] == PLUS_SIGN) {
        let r = vstd::slice::slice_subrange(text, 1, text.len());
        assert(r@ =~= text@.drop_first());
        r
    } else {
        text
    }
}

/// Reads `text` as a decimal number with an optional leading `+` or `-`,
/// times `10^scale`, dropping fraction digits past `scale`. `None` when the
/// text is not of that form or the value lies outside `[min, max]`.
pub fn parse_decimal(text: &[u8], scale: usize, min: i64, max: i64) -> (r: Option<i64>)
    requires
        min <= 0 <= max,
    ensures
        r is Some <==> (is_decimal(unsigned_part(text@)) && min <= signed_scaled_value(
            text@,
            scale as nat,
        ) <= max),
        r matches Some(v) ==> v == signed_scaled_value(text@, scale as nat),
{
    let negative: bool = text.len() > 0 && text[0] == MINUS_SIGN;
    let body: &[u8] = strip_sign(text);
    let bound: u64 = if negative { (-(min as i128)) as u64 } else { max as u64 };
    proof {
        if is_decimal(body@) {
            let digits = whole_part(body@) + kept_fraction(fraction_part(body@), scale as nat);
            lemma_kept_fraction_digits(fraction_part(body@), scale as nat);
            lemma_digits_value_nonneg(digits);
        }
    }
    match parse_unsigned(body, scale, bound) {
        Some(v) => {
            if negative {
                Some((-(v as i128)) as i64)
            } else {
                Some(v as i64)
            }
        },
        None => None,
    }
}

/// Reads `text` as a whole number with an optional leading `+`. `None` when
/// the digits are missing, anything else follows the sign, or the value exceeds `max`.
pub fn parse_whole(text: &[u8], max: u64) -> (r: Option<u64>)
    ensures
        ({
            let body = if text@.len() > 0 && text@[0] == PLUS_SIGN {
                text@.drop_first()
            } else {
                text@
            };
            &&& r is Some <==> (body.len() >= 1 && all_digits(body) && digits_value(body) <= max)
            &&& r matches Some(v) ==> v == digits_value(body)
        }),
{
    if text.len() > 0 && text[0] == PLUS_SIGN {
        let body = vstd::slice::slice_subrange(text, 1, text.len());
        assert(body@ =~= text@.drop_first());
        parse_digits(body, max)
    } else {
        parse_digits(text, max)
    }
}

} // verus!
