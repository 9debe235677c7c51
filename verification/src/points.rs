//! Decoding of polygon point lists: whitespace-separated `x,y` tokens, with
//! integer or decimal coordinates, malformed tokens left out.

use crate::text::{
    all_digits, digit_value, digits_value, is_digit, is_space, is_whitespace, parse_u32_chars,
    parsed_u32, read_digits, words,
};
use vstd::prelude::*;

verus! {

/// Whether `k` is the place of the one and only comma of `w`.
pub open spec fn sole_comma(w: Seq<char>, k: int) -> bool {
    &&& 0 <= k < w.len()
    &&& w[k] == ','
    &&& forall|j: int| 0 <= j < w.len() && j != k ==> w[j] != ','
}

/// `n` as a `u32`, or the largest `u32` where `n` is beyond it.
pub open spec fn clamped(n: nat) -> u32 {
    if n <= u32::MAX {
        n as u32
    } else {
        u32::MAX
    }
}

/// The place behind the digits that `s` has from `from` on.
pub open spec fn digits_end(s: Seq<char>, from: int) -> int
    decreases s.len() - from,
{
    if 0 <= from < s.len() && is_digit(s[from]) {
        digits_end(s, from + 1)
    } else {
        from
    }
}

/// The place behind the sign that `s` may have at `from`.
pub open spec fn sign_end(s: Seq<char>, from: int) -> int {
    if 0 <= from < s.len() && (s[from] == '+' || s[from] == '-') {
        from + 1
    } else {
        from
    }
}

/// The place behind the `.` that `s` may have at `from`.
pub open spec fn point_end(s: Seq<char>, from: int) -> int {
    if 0 <= from < s.len() && s[from] == '.' {
        from + 1
    } else {
        from
    }
}

/// The power of ten with the exponent `n`.
pub open spec fn pow10(n: nat) -> nat
    decreases n,
{
    if n == 0 {
        1
    } else {
        10 * pow10((n - 1) as nat)
    }
}

/// A decimal number as it is written: its sign, the digits before and
/// after the point, and the power of ten it is multiplied by.
pub struct Decimal {
    pub negative: bool,
    pub whole: Seq<char>,
    pub fraction: Seq<char>,
    pub exponent: int,
}

/// The exponent that `s` writes from `from` on: 0 where nothing is left;
/// the number after `e` or `E`, with its sign, where what is left is one
/// of them, an optional sign and one or more digits; none for any other
/// text.
pub open spec fn exponent_at(s: Seq<char>, from: int) -> Option<int> {
    let first = sign_end(s, from + 1);
    let last = digits_end(s, first);
    if from >= s.len() {
        Some(0int)
    } else if (s[from] == 'e' || s[from] == 'E') && first < last && last == s.len() {
        if s[from + 1] == '-' {
            Some(-(digits_value(s.subrange(first, last)) as int))
        } else {
            Some(digits_value(s.subrange(first, last)) as int)
        }
    } else {
        None
    }
}

/// The decimal number that `s` writes.
///
/// A decimal number is an optional sign; then digits, with or without a
/// `.` before, among or after them, at least one digit in all; then, if
/// wanted, an exponent: `e` or `E`, an optional sign and one or more
/// digits. Any other text writes none.
pub open spec fn decimal_of(s: Seq<char>) -> Option<Decimal> {
    let start = sign_end(s, 0);
    let point = digits_end(s, start);
    let after = point_end(s, point);
    let end = digits_end(s, after);
    match exponent_at(s, end) {
        Some(exponent) => if point - start + end - after > 0 {
            Some(
                Decimal {
                    negative: s[0] == '-',
                    whole: s.subrange(start, point),
                    fraction: s.subrange(after, end),
                    exponent,
                },
            )
        } else {
            None
        },
        None => None,
    }
}

/// The whole part of the number written by `digits` with the point after
/// its first `point` digits. A point that lies before the digits leaves no
/// whole part; one that lies behind them appends zeros.
#[verifier::opaque]
pub open spec fn whole_part(digits: Seq<char>, point: int) -> nat {
    if point < 0 {
        0
    } else if point < digits.len() {
        digits_value(digits.take(point))
    } else {
        digits_value(digits) * pow10((point - digits.len()) as nat)
    }
}

/// The number written by `digits` with the point after its first `point`
/// digits, rounded to the nearest integer, a half going up: one more than
/// its whole part where the first digit behind the point is 5 or more.
#[verifier::opaque]
pub open spec fn rounded(digits: Seq<char>, point: int) -> nat {
    whole_part(digits, point) + if 0 <= point < digits.len() && digit_value(digits[point]) >= 5 {
        1nat
    } else {
        0nat
    }
}

/// The least whole number that is too large for a number of single
/// precision, which counts it as infinite: the largest finite one and half
/// a step more.
pub open spec fn single_limit() -> nat {
    0xFFFF_FF80_0000_0000_0000_0000_0000_0000
}

/// The coordinate that the text `s` stands for: that of the decimal number
/// it writes, and none where it writes none.
pub open spec fn rounded_decimal(s: Seq<char>) -> Option<u32> {
    match decimal_of(s) {
        Some(number) => coordinate_of(number),
        None => None,
    }
}

/// The coordinate that `s` stands for: a decimal number rounded where
/// `fractional` is set, else an unsigned integer.
pub open spec fn coordinate(s: Seq<char>, fractional: bool) -> Option<u32> {
    if fractional {
        rounded_decimal(s)
    } else {
        parsed_u32(s)
    }
}

/// The point that the token `w` stands for: two coordinates around its
/// only comma.
pub open spec fn decoded_point(w: Seq<char>, fractional: bool) -> Option<(u32, u32)> {
    if exists|k: int| sole_comma(w, k) {
        let k = choose|k: int| sole_comma(w, k);
        match (coordinate(w.take(k), fractional), coordinate(w.skip(k + 1), fractional)) {
            (Some(x), Some(y)) => Some((x, y)),
            _ => None,
        }
    } else {
        None
    }
}

/// The points of the tokens of `ws` that stand for one, in order.
pub open spec fn collected(ws: Seq<Seq<char>>, fractional: bool) -> Seq<(u32, u32)>
    decreases ws.len(),
{
    if ws.len() == 0 {
        Seq::empty()
    } else {
        match decoded_point(ws.last(), fractional) {
            Some(p) => collected(ws.drop_last(), fractional).push(p),
            None => collected(ws.drop_last(), fractional),
        }
    }
}

/// The points of the list `s`: one for each of its tokens that stands for
/// a point, in the order of the tokens.
pub open spec fn decoded_points(s: Seq<char>, fractional: bool) -> Seq<(u32, u32)> {
    collected(words(s), fractional)
}

/// A word has at most one place for its only comma.
pub proof fn lemma_sole_comma_unique(w: Seq<char>, a: int, b: int)
    requires
        sole_comma(w, a),
        sole_comma(w, b),
    ensures
        a == b,
{
}

/// Digits from one place to another and no digit at that other place:
/// there the digits end.
pub proof fn lemma_digits_end(s: Seq<char>, from: int, end: int)
    requires
        0 <= from <= end <= s.len(),
        forall|i: int| from <= i < end ==> is_digit(#[trigger] s[i]),
        end < s.len() ==> !is_digit(s[end]),
    ensures
        digits_end(s, from) == end,
    decreases end - from,
{
    if from < end {
        lemma_digits_end(s, from + 1, end);
    }
}

/// A greater exponent gives a power of ten that is no smaller, and every
/// power of ten is positive.
pub proof fn lemma_pow10_grows(a: nat, b: nat)
    requires
        a <= b,
    ensures
        1 <= pow10(a) <= pow10(b),
    decreases b,
{
    if b == 0 {
    } else if a == b {
        lemma_pow10_grows(0, (b - 1) as nat);
        lemma_pow10_grows((a - 1) as nat, (b - 1) as nat);
    } else {
        lemma_pow10_grows(a, (b - 1) as nat);
    }
}

/// Digits denote less than the power of ten with their number as exponent.
pub proof fn lemma_digits_value_bound(s: Seq<char>)
    requires
        all_digits(s),
    ensures
        digits_value(s) < pow10(s.len()),
    decreases s.len(),
{
    if s.len() > 0 {
        let init = s.drop_last();
        assert forall|i: int| 0 <= i < init.len() implies is_digit(#[trigger] init[i]) by {
            assert(init[i] == s[i]);
        }
        lemma_digits_value_bound(init);
        assert(is_digit(s[s.len() - 1]));
    }
}

/// Digits denote what their first `n` denote, times the power of ten with
/// the number of the others as exponent, and what the others denote.
pub proof fn lemma_digits_value_split(s: Seq<char>, n: int)
    requires
        0 <= n <= s.len(),
    ensures
        digits_value(s) == digits_value(s.take(n)) * pow10((s.len() - n) as nat) + digits_value(
            s.skip(n),
        ),
    decreases s.len() - n,
{
    let head = digits_value(s.take(n));
    if n == s.len() {
        assert(s.take(n) =~= s);
        assert(s.skip(n) =~= Seq::<char>::empty());
        assert(head * pow10(0) == head) by (nonlinear_arith)
            requires
                pow10(0) == 1,
        ;
    } else {
        let init = s.drop_last();
        lemma_digits_value_split(init, n);
        assert(init.take(n) =~= s.take(n));
        assert(init.skip(n) =~= s.skip(n).drop_last());
        assert(s.skip(n).last() == s.last());
        let small = pow10((s.len() - 1 - n) as nat);
        let rest = digits_value(init.skip(n));
        let last = digit_value(s.last());
        assert(pow10((s.len() - n) as nat) == 10 * small);
        assert(10 * (head * small + rest) + last == head * (10 * small) + (10 * rest + last))
            by (nonlinear_arith);
    }
}

/// Rounding gives the nearest integer, a half going up: the number that
/// `digits` writes with the point after its first `point` digits lies no
/// more than a half below what it is rounded to, and less than a half
/// above. With `scale` for the power of ten that has the number of digits
/// behind the point as exponent, the number is the value of all digits
/// divided by `scale`.
pub proof fn lemma_rounded_is_nearest(digits: Seq<char>, point: int)
    requires
        all_digits(digits),
        0 <= point <= digits.len(),
    ensures
        ({
            let scale = pow10((digits.len() - point) as nat);
            let nearest = rounded(digits, point);
            2 * nearest * scale <= 2 * digits_value(digits) + scale < 2 * (nearest + 1) * scale
        }),
{
    reveal(whole_part);
    reveal(rounded);
    let scale = pow10((digits.len() - point) as nat);
    let value = digits_value(digits);
    let nearest = rounded(digits, point);
    lemma_pow10_grows(0, (digits.len() - point) as nat);
    if point == digits.len() {
        assert(value * pow10(0) == value) by (nonlinear_arith)
            requires
                pow10(0) == 1,
        ;
        assert(nearest == value);
        assert(scale == 1);
        assert(2 * nearest * scale <= 2 * value + scale < 2 * (nearest + 1) * scale)
            by (nonlinear_arith)
            requires
                nearest == value,
                scale == 1,
        ;
    } else {
        let behind = digits.skip(point);
        let whole = digits_value(digits.take(point));
        let part = digits_value(behind);
        lemma_digits_value_split(digits, point);
        assert forall|i: int| 0 <= i < behind.len() implies is_digit(#[trigger] behind[i]) by {
            assert(behind[i] == digits[point + i]);
        }
        lemma_digits_value_split(behind, 1);
        let first = digit_value(behind[0]);
        let step = pow10((behind.len() - 1) as nat);
        let low = digits_value(behind.skip(1));
        assert forall|i: int| 0 <= i < behind.skip(1).len() implies is_digit(
            #[trigger] behind.skip(1)[i],
        ) by {
            assert(behind.skip(1)[i] == behind[i + 1]);
        }
        lemma_digits_value_bound(behind.skip(1));
        assert(behind.take(1) =~= seq![behind[0]]);
        assert(digits_value(seq![behind[0]]) == first) by {
            let one = seq![behind[0]];
            assert(one.drop_last() =~= Seq::<char>::empty());
            assert(digits_value(one.drop_last()) == 0);
            assert(one.last() == behind[0]);
        }
        assert(behind[0] == digits[point]);
        assert(scale == 10 * step);
        assert(part == first * step + low);
        assert(low < step);
        assert(value == whole * scale + part);
        assert(first <= 9);
        if first >= 5 {
            assert(nearest == whole + 1);
            assert(2 * (whole + 1) * scale <= 2 * (whole * scale + part) + scale < 2 * (whole + 1
                + 1) * scale) by (nonlinear_arith)
                requires
                    scale == 10 * step,
                    part == first * step + low,
                    0 <= low < step,
                    5 <= first <= 9,
            ;
        } else {
            assert(nearest == whole);
            assert(2 * whole * scale <= 2 * (whole * scale + part) + scale < 2 * (whole + 1)
                * scale) by (nonlinear_arith)
                requires
                    scale == 10 * step,
                    part == first * step + low,
                    0 <= low < step,
                    0 <= first <= 4,
            ;
        }
    }
}

/// `n` where it is at most `limit`, and one more than `limit` where it is
/// not.
pub open spec fn capped_at(n: nat, limit: nat) -> nat {
    if n <= limit {
        n
    } else {
        limit + 1
    }
}

/// Reads the digits `chars[from..to]` on after the digits `prefix`, whose
/// value, capped at `limit`, is `acc`: the value of all of them, capped.
fn accumulate(
    acc: u128,
    Ghost(prefix): Ghost<Seq<char>>,
    chars: &Vec<char>,
    from: usize,
    to: usize,
    limit: u128,
) -> (r: u128)
    requires
        from <= to <= chars.len(),
        all_digits(chars@.subrange(from as int, to as int)),
        9 <= limit < u128::MAX,
        acc == capped_at(digits_value(prefix), limit as nat),
    ensures
        r == capped_at(
            digits_value(prefix + chars@.subrange(from as int, to as int)),
            limit as nat,
        ),
{
    let mut acc = acc;
    let mut i: usize = from;
    proof {
        assert(prefix + chars@.subrange(from as int, from as int) =~= prefix);
    }
    while i < to
        invariant
            from <= i <= to <= chars.len(),
            all_digits(chars@.subrange(from as int, to as int)),
            9 <= limit < u128::MAX,
            acc == capped_at(
                digits_value(prefix + chars@.subrange(from as int, i as int)),
                limit as nat,
            ),
        decreases to - i,
    {
        let ghost before = prefix + chars@.subrange(from as int, i as int);
        let ghost after = prefix + chars@.subrange(from as int, i + 1);
        proof {
            assert(after.drop_last() =~= before);
            assert(after.last() == chars@[i as int]);
            assert(chars@.subrange(from as int, to as int)[i - from] == chars@[i as int]);
        }
        let digit = (chars[i] as u32 - 0x30) as u128;
        if acc > (limit - digit) / 10 {
            acc = limit + 1;
        } else {
            acc = acc * 10 + digit;
        }
        i = i + 1;
    }
    acc
}

/// `acc` times the power of ten with the exponent `pad`, capped at
/// `limit`; `acc` is the capped form of `value`.
fn scale(acc: u128, Ghost(value): Ghost<nat>, pad: u128, limit: u128) -> (r: u128)
    requires
        9 <= limit < u128::MAX,
        acc == capped_at(value, limit as nat),
    ensures
        r == capped_at(value * pow10(pad as nat), limit as nat),
{
    let mut acc = acc;
    let mut i: u128 = 0;
    proof {
        assert(value * pow10(0) == value) by (nonlinear_arith)
            requires
                pow10(0) == 1,
        ;
    }
    while i < pad && acc <= limit && acc > 0
        invariant
            i <= pad,
            9 <= limit < u128::MAX,
            acc == capped_at(value * pow10(i as nat), limit as nat),
        decreases pad - i,
    {
        proof {
            assert(value * pow10((i + 1) as nat) == (value * pow10(i as nat)) * 10)
                by (nonlinear_arith)
                requires
                    pow10((i + 1) as nat) == 10 * pow10(i as nat),
            ;
        }
        if acc > limit / 10 {
            acc = limit + 1;
        } else {
            acc = acc * 10;
        }
        i = i + 1;
    }
    proof {
        lemma_pow10_grows(i as nat, pad as nat);
        let small = pow10(i as nat);
        let large = pow10(pad as nat);
        if acc == 0 {
            assert(value * small == 0);
            assert(value == 0) by (nonlinear_arith)
                requires
                    value * small == 0,
                    small >= 1,
            ;
            assert(value * large == 0) by (nonlinear_arith)
                requires
                    value == 0,
            ;
        } else if i < pad {
            assert(value * large >= value * small) by (nonlinear_arith)
                requires
                    small <= large,
            ;
        }
    }
    acc
}

/// A number that is not 0, times a power of ten with an exponent of 39 or
/// more, is too large for single precision.
proof fn lemma_padded_is_large(value: nat, pad: nat)
    requires
        value >= 1,
        pad >= 39,
    ensures
        value * pow10(pad) >= single_limit(),
{
    lemma_pow10_grows(39, pad);
    reveal_with_fuel(pow10, 40);
    assert(pow10(39) == 1_000_000_000_000_000_000_000_000_000_000_000_000_000);
    assert(value * pow10(pad) >= pow10(39)) by (nonlinear_arith)
        requires
            value >= 1,
            pow10(pad) >= pow10(39),
    ;
}

/// Rounds the number whose digits before the point are `chars[start..p]`,
/// whose digits after it are `chars[fs..q]`, and which is multiplied by
/// the power of ten with the exponent `power`: `magnitude` is the absolute
/// value of that exponent, capped, and `lowered` says that it is negative.
/// A number too large for single precision gives `None`.
fn round_shifted(
    chars: &Vec<char>,
    start: usize,
    p: usize,
    fs: usize,
    q: usize,
    lowered: bool,
    magnitude: u128,
    Ghost(power): Ghost<nat>,
) -> (r: Option<u32>)
    requires
        start <= p <= fs <= q <= chars.len(),
        all_digits(chars@.subrange(start as int, p as int)),
        all_digits(chars@.subrange(fs as int, q as int)),
        magnitude == capped_at(power, 0x2_0000_0000_0000_0000),
    ensures
        ({
            let digits = chars@.subrange(start as int, p as int) + chars@.subrange(
                fs as int,
                q as int,
            );
            let point = (p - start) + if lowered {
                -(power as int)
            } else {
                power as int
            };
            r == if whole_part(digits, point) >= single_limit() {
                None
            } else {
                Some(clamped(rounded(digits, point)))
            }
        }),
{
    let ghost whole = chars@.subrange(start as int, p as int);
    let ghost fraction = chars@.subrange(fs as int, q as int);
    let ghost digits = whole + fraction;
    proof {
        reveal(whole_part);
        reveal(rounded);
    }
    let wlen = p - start;
    let flen = q - fs;
    let len = wlen + flen;
    let limit: u128 = 0xFFFF_FF7F_FFFF_FFFF_FFFF_FFFF_FFFF_FFFF;
    let point: usize;
    if lowered {
        if magnitude > wlen as u128 {
            return Some(0);
        }
        point = wlen - magnitude as usize;
    } else if magnitude > 0x2_0000_0000_0000_0000 || wlen as u128 + magnitude >= len as u128 {
        let all = accumulate(0, Ghost(Seq::empty()), chars, start, p, limit);
        proof {
            assert(Seq::<char>::empty() + whole =~= whole);
        }
        let all = accumulate(all, Ghost(whole), chars, fs, q, limit);
        if magnitude > 0x2_0000_0000_0000_0000 {
            proof {
                let pad = (wlen + power - len) as nat;
                if digits_value(digits) >= 1 {
                    lemma_padded_is_large(digits_value(digits), pad);
                } else {
                    assert(digits_value(digits) * pow10(pad) == 0) by (nonlinear_arith)
                        requires
                            digits_value(digits) == 0,
                    ;
                }
            }
            return if all == 0 {
                Some(0)
            } else {
                None
            };
        }
        let total = scale(
            all,
            Ghost(digits_value(digits)),
            wlen as u128 + magnitude - len as u128,
            limit,
        );
        return if total > limit {
            None
        } else if total > u32::MAX as u128 {
            Some(u32::MAX)
        } else {
            Some(total as u32)
        };
    } else {
        point = wlen + magnitude as usize;
    }
    if point == len {
        let all = accumulate(0, Ghost(Seq::empty()), chars, start, p, limit);
        proof {
            assert(Seq::<char>::empty() + whole =~= whole);
            assert(digits_value(digits) * pow10(0) == digits_value(digits)) by (nonlinear_arith)
                requires
                    pow10(0) == 1,
            ;
        }
        let all = accumulate(all, Ghost(whole), chars, fs, q, limit);
        return if all > limit {
            None
        } else if all > u32::MAX as u128 {
            Some(u32::MAX)
        } else {
            Some(all as u32)
        };
    }
    let taken_whole = if point < wlen {
        point
    } else {
        wlen
    };
    let taken_fraction = point - taken_whole;
    proof {
        assert forall|i: int| 0 <= i < taken_whole implies is_digit(
            #[trigger] chars@.subrange(start as int, start + taken_whole)[i],
        ) by {
            assert(chars@.subrange(start as int, start + taken_whole)[i] == whole[i]);
        }
        assert forall|i: int| 0 <= i < taken_fraction implies is_digit(
            #[trigger] chars@.subrange(fs as int, fs + taken_fraction)[i],
        ) by {
            assert(chars@.subrange(fs as int, fs + taken_fraction)[i] == fraction[i]);
        }
        assert(Seq::<char>::empty() + chars@.subrange(start as int, start + taken_whole)
            =~= whole.take(taken_whole as int));
        assert(whole.take(taken_whole as int) + chars@.subrange(fs as int, fs + taken_fraction)
            =~= digits.take(point as int));
    }
    let kept = accumulate(0, Ghost(Seq::empty()), chars, start, start + taken_whole, limit);
    let kept = accumulate(
        kept,
        Ghost(whole.take(taken_whole as int)),
        chars,
        fs,
        fs + taken_fraction,
        limit,
    );
    if kept > limit {
        return None;
    }
    let next = if point < wlen {
        chars[start + point]
    } else {
        chars[fs + (point - wlen)]
    };
    proof {
        assert(digits[point as int] == next);
        assert(is_digit(next)) by {
            if point < wlen {
                assert(whole[point as int] == next);
            } else {
                assert(fraction[point - wlen] == next);
            }
        }
    }
    let total = if next as u32 >= 0x35 {
        kept + 1
    } else {
        kept
    };
    if total > u32::MAX as u128 {
        Some(u32::MAX)
    } else {
        Some(total as u32)
    }
}

/// Reads the digits that `chars` has from `from` on and says where they
/// end.
fn skip_digits(chars: &Vec<char>, from: usize) -> (end: usize)
    requires
        from <= chars.len(),
    ensures
        from <= end <= chars.len(),
        end == digits_end(chars@, from as int),
        all_digits(chars@.subrange(from as int, end as int)),
{
    let (_, end) = read_digits(chars, from, chars.len());
    proof {
        assert forall|i: int| from <= i < end implies is_digit(#[trigger] chars@[i]) by {
            assert(chars@.subrange(from as int, end as int)[i - from] == chars@[i]);
        }
        lemma_digits_end(chars@, from as int, end as int);
    }
    end
}

/// Reads the exponent that `chars` writes from `from` on: whether it is
/// negative, and its absolute value, capped.
fn read_exponent(chars: &Vec<char>, from: usize) -> (r: Option<(bool, u128)>)
    requires
        from <= chars.len(),
    ensures
        match (exponent_at(chars@, from as int), r) {
            (Some(exponent), Some(pair)) => pair.1 == capped_at(
                if pair.0 {
                    (-exponent) as nat
                } else {
                    exponent as nat
                },
                0x2_0000_0000_0000_0000,
            ) && (pair.0 ==> exponent <= 0) && (!pair.0 ==> exponent >= 0),
            (None, None) => true,
            _ => false,
        },
{
    let n = chars.len();
    if from == n {
        return Some((false, 0));
    }
    if chars[from] != 'e' && chars[from] != 'E' {
        return None;
    }
    let lowered = from + 1 < n && chars[from + 1] == '-';
    let first = if from + 1 < n && (chars[from + 1] == '+' || chars[from + 1] == '-') {
        from + 2
    } else {
        from + 1
    };
    let last = skip_digits(chars, first);
    if last < n || first == last {
        return None;
    }
    let magnitude = accumulate(0, Ghost(Seq::empty()), chars, first, last, 0x2_0000_0000_0000_0000);
    proof {
        assert(Seq::<char>::empty() + chars@.subrange(first as int, last as int)
            =~= chars@.subrange(first as int, last as int));
    }
    Some((lowered, magnitude))
}

/// The coordinate that the decimal number `number` stands for.
///
/// A number whose whole part is too large for single precision stands for
/// none. Of the others, one with a `-` gives 0, and any other is rounded to
/// the nearest integer, a half going up, and held to the range of `u32`.
pub open spec fn coordinate_of(number: Decimal) -> Option<u32> {
    let digits = number.whole + number.fraction;
    let point = number.whole.len() + number.exponent;
    if whole_part(digits, point) >= single_limit() {
        None
    } else if number.negative {
        Some(0u32)
    } else {
        Some(clamped(rounded(digits, point)))
    }
}

/// Decodes the decimal number `chars` into a coordinate.
fn decode_decimal(chars: &Vec<char>) -> (r: Option<u32>)
    ensures
        r == rounded_decimal(chars@),
{
    let n = chars.len();
    let negative = 0 < n && chars[0] == '-';
    let start: usize = if 0 < n && (chars[0] == '+' || chars[0] == '-') {
        1
    } else {
        0
    };
    let p = skip_digits(chars, start);
    let fs = if p < n && chars[p] == '.' {
        p + 1
    } else {
        p
    };
    let q = skip_digits(chars, fs);
    let exponent = read_exponent(chars, q);
    if p == start && q == fs {
        return None;
    }
    match exponent {
        Some((lowered, magnitude)) => {
            let ghost power = exponent_at(chars@, q as int)->0;
            let rounded = round_shifted(
                chars,
                start,
                p,
                fs,
                q,
                lowered,
                magnitude,
                Ghost(
                    if lowered {
                        (-power) as nat
                    } else {
                        power as nat
                    },
                ),
            );
            match rounded {
                Some(value) => if negative {
                    Some(0)
                } else {
                    Some(value)
                },
                None => None,
            }
        },
        None => None,
    }
}

/// The characters `chars[from..to]`.
fn part(chars: &Vec<char>, from: usize, to: usize) -> (copy: Vec<char>)
    requires
        from <= to <= chars.len(),
    ensures
        copy@ == chars@.subrange(from as int, to as int),
{
    let mut copy: Vec<char> = Vec::new();
    let mut i: usize = from;
    while i < to
        invariant
            from <= i <= to <= chars.len(),
            copy@ == chars@.subrange(from as int, i as int),
        decreases to - i,
    {
        copy.push(chars[i]);
        proof {
            assert(chars@.subrange(from as int, i as int).push(chars@[i as int])
                =~= chars@.subrange(from as int, i + 1));
        }
        i = i + 1;
    }
    copy
}

/// Decodes the text `chars` into a coordinate.
fn decode_coordinate(chars: &Vec<char>, fractional: bool) -> (r: Option<u32>)
    ensures
        r == coordinate(chars@, fractional),
{
    if fractional {
        decode_decimal(chars)
    } else {
        proof {
            assert(chars@.subrange(0, chars@.len() as int) =~= chars@);
        }
        parse_u32_chars(chars, 0, chars.len())
    }
}

/// Decodes the token `word` into a point.
fn decode_point(word: &Vec<char>, fractional: bool) -> (r: Option<(u32, u32)>)
    ensures
        r == decoded_point(word@, fractional),
{
    let n = word.len();
    let mut k: usize = 0;
    while k < n && word[k] != ','
        invariant
            k <= n == word.len(),
            forall|j: int| 0 <= j < k ==> word@[j] != ',',
        decreases n - k,
    {
        k = k + 1;
    }
    if k == n {
        return None;
    }
    let mut m: usize = k + 1;
    while m < n && word[m] != ','
        invariant
            k < m <= n == word.len(),
            forall|j: int| k < j < m ==> word@[j] != ',',
        decreases n - m,
    {
        m = m + 1;
    }
    if m < n {
        proof {
            assert forall|c: int| sole_comma(word@, c) implies false by {
                if c != k as int {
                    assert(word@[k as int] == ',');
                } else {
                    assert(word@[m as int] == ',');
                }
            }
        }
        return None;
    }
    proof {
        assert(sole_comma(word@, k as int));
        let c = choose|c: int| sole_comma(word@, c);
        lemma_sole_comma_unique(word@, c, k as int);
        assert(word@.take(k as int) =~= word@.subrange(0, k as int));
        assert(word@.skip(k + 1) =~= word@.subrange(k + 1, n as int));
    }
    let x = decode_coordinate(&part(word, 0, k), fractional);
    let y = decode_coordinate(&part(word, k + 1, n), fractional);
    match (x, y) {
        (Some(a), Some(b)) => Some((a, b)),
        _ => None,
    }
}

/// Decodes a list of `x,y` tokens separated by whitespace. A coordinate is
/// a decimal number, rounded, where `fractional` is set, and an unsigned
/// integer where it is not; a token that does not hold exactly two of them
/// is left out.
pub fn decode_points(s: &str, fractional: bool) -> (points: Vec<(u32, u32)>)
    ensures
        points@ == decoded_points(s@, fractional),
{
    let mut points: Vec<(u32, u32)> = Vec::new();
    let mut word: Vec<char> = Vec::new();
    let ghost mut done: Seq<Seq<char>> = Seq::empty();
    for c in it: s.chars()
        invariant
            it.seq() == s@,
            words(s@.take(it.index() as int)) == if word@.len() > 0 {
                done.push(word@)
            } else {
                done
            },
            word@.len() > 0 <==> it.index() > 0 && !is_space(s@[it.index() - 1]),
            points@ == collected(done, fractional),
    {
        let ghost i = it.index() as int;
        proof {
            assert(s@.take(i + 1).drop_last() =~= s@.take(i));
            assert(s@.take(i + 1).last() == c);
            if i > 0 {
                assert(s@.take(i + 1)[i - 1] == s@[i - 1]);
            }
        }
        let ghost before = words(s@.take(i));
        if is_whitespace(c) {
            proof {
                assert(words(s@.take(i + 1)) == before);
            }
            if word.len() > 0 {
                let p = decode_point(&word, fractional);
                proof {
                    assert(done.push(word@).drop_last() =~= done);
                    assert(done.push(word@).last() == word@);
                    done = done.push(word@);
                }
                match p {
                    Some(point) => {
                        points.push(point);
                    },
                    None => {},
                }
                word = Vec::new();
            }
        } else {
            proof {
                if word@.len() > 0 {
                    assert(before.len() > 0);
                    assert(before.drop_last() =~= done);
                    assert(before.last() == word@);
                    assert(words(s@.take(i + 1)) == done.push(word@.push(c)));
                } else {
                    assert(word@.push(c) =~= seq![c]);
                    assert(words(s@.take(i + 1)) == done.push(seq![c]));
                }
            }
            word.push(c);
        }
    }
    proof {
        assert(s@.take(s@.len() as int) =~= s@);
    }
    if word.len() > 0 {
        let p = decode_point(&word, fractional);
        proof {
            assert(done.push(word@).drop_last() =~= done);
        }
        match p {
            Some(point) => {
                points.push(point);
            },
            None => {},
        }
    }
    points
}

/// Decodes a list of `x,y` tokens whose coordinates are decimal numbers:
/// each coordinate is rounded to the nearest integer, a negative one
/// becomes 0, and a token that is no such pair is left out.
pub fn parse_points_allow_float(points_str: &str) -> (points: Vec<(u32, u32)>)
    ensures
        points@ == decoded_points(points_str@, true),
{
    decode_points(points_str, true)
}

} // verus!
