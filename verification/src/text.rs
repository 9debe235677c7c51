//! Character and string primitives shared by the parsers: whitespace
//! classification, words and normalization, decimal numbers, prefix
//! stripping.

use vstd::prelude::*;

verus! {

/// `String::push` appends exactly one character to the end of the string.
pub assume_specification[ String::push ](s: &mut String, ch: char)
    ensures
        final(s)@ == old(s)@.push(ch),
;

/// `str` equality holds exactly when both slices hold the same characters.
pub assume_specification[ <str as PartialEq>::eq ](a: &str, b: &str) -> (r: bool)
    ensures
        r == (a@ == b@),
;

/// Whether `c` carries the Unicode `White_Space` property.
pub open spec fn is_space(c: char) -> bool {
    let n = c as u32;
    (0x09 <= n <= 0x0D) || n == 0x20 || n == 0x85 || n == 0xA0 || n == 0x1680 || (0x2000 <= n
        <= 0x200A) || n == 0x2028 || n == 0x2029 || n == 0x202F || n == 0x205F || n == 0x3000
}

/// Executable form of [`is_space`].
pub fn is_whitespace(c: char) -> (r: bool)
    ensures
        r == is_space(c),
{
    let n: u32 = c as u32;
    (0x09 <= n && n <= 0x0D) || n == 0x20 || n == 0x85 || n == 0xA0 || n == 0x1680 || (0x2000 <= n
        && n <= 0x200A) || n == 0x2028 || n == 0x2029 || n == 0x202F || n == 0x205F || n
        == 0x3000
}

/// The text `s` with every maximal run of whitespace replaced by one space.
///
/// A leading or trailing run is a run like any other, so it leaves exactly
/// one space at that boundary; text without whitespace is unchanged.
pub open spec fn normalized(s: Seq<char>) -> Seq<char>
    decreases s.len(),
{
    if s.len() == 0 {
        Seq::empty()
    } else {
        let head = normalized(s.drop_last());
        if !is_space(s.last()) {
            head.push(s.last())
        } else if s.len() >= 2 && is_space(s[s.len() - 2]) {
            head
        } else {
            head.push(' ')
        }
    }
}

/// A text in which whitespace occurs only as single, isolated spaces.
pub open spec fn is_tidy(s: Seq<char>) -> bool {
    forall|i: int|
        0 <= i < s.len() && is_space(#[trigger] s[i]) ==> s[i] == ' ' && (i + 1 < s.len()
            ==> !is_space(s[i + 1]))
}

/// Collapses whitespace runs to single spaces, keeping one space at a
/// boundary that had any whitespace.
pub fn normalize_whitespace(s: &str) -> (r: String)
    ensures
        r@ == normalized(s@),
{
    let mut out = String::new();
    let mut prev_space = false;
    for c in it: s.chars()
        invariant
            it.seq() == s@,
            out@ == normalized(s@.take(it.index() as int)),
            prev_space == (it.index() > 0 && is_space(s@[it.index() - 1])),
    {
        let ghost i = it.index() as int;
        proof {
            assert(s@.take(i + 1).drop_last() =~= s@.take(i));
            assert(s@.take(i + 1).last() == c);
        }
        let space = is_whitespace(c);
        if !space {
            out.push(c);
        } else if !prev_space {
            out.push(' ');
        }
        prev_space = space;
    }
    proof {
        assert(s@.take(s@.len() as int) =~= s@);
    }
    out
}

/// What normalization leaves is tidy, it is empty only for the empty text,
/// and it ends in whitespace exactly when the text did.
pub proof fn lemma_normalized_is_tidy(s: Seq<char>)
    ensures
        is_tidy(normalized(s)),
        normalized(s).len() <= s.len(),
        s.len() > 0 ==> normalized(s).len() > 0 && (is_space(normalized(s).last()) <==> is_space(
            s.last(),
        )),
    decreases s.len(),
{
    if s.len() > 0 {
        lemma_normalized_is_tidy(s.drop_last());
        let head = normalized(s.drop_last());
        if s.len() >= 2 {
            assert(s.drop_last().last() == s[s.len() - 2]);
        }
        if !is_space(s.last()) {
            let t = head.push(s.last());
            assert forall|i: int| 0 <= i < t.len() && is_space(#[trigger] t[i]) implies t[i] == ' '
                && (i + 1 < t.len() ==> !is_space(t[i + 1])) by {
                assert(t[i] == head[i]);
                if i + 1 < head.len() {
                    assert(t[i + 1] == head[i + 1]);
                }
            }
        } else if s.len() >= 2 && is_space(s[s.len() - 2]) {
        } else {
            let t = head.push(' ');
            assert forall|i: int| 0 <= i < t.len() && is_space(#[trigger] t[i]) implies t[i] == ' '
                && (i + 1 < t.len() ==> !is_space(t[i + 1])) by {
                if i < head.len() {
                    assert(t[i] == head[i]);
                    if i + 1 < head.len() {
                        assert(t[i + 1] == head[i + 1]);
                    }
                }
            }
        }
    }
}

/// Normalization leaves a tidy text as it is.
pub proof fn lemma_tidy_is_fixed(s: Seq<char>)
    requires
        is_tidy(s),
    ensures
        normalized(s) == s,
    decreases s.len(),
{
    if s.len() > 0 {
        let init = s.drop_last();
        assert forall|i: int| 0 <= i < init.len() && is_space(#[trigger] init[i]) implies init[i]
            == ' ' && (i + 1 < init.len() ==> !is_space(init[i + 1])) by {
            assert(init[i] == s[i]);
        }
        lemma_tidy_is_fixed(init);
        if is_space(s.last()) {
            assert(s[s.len() - 1] == ' ');
            if s.len() >= 2 {
                assert(is_space(s[s.len() - 2]) ==> !is_space(s[s.len() - 2 + 1]));
            }
        }
        assert(init.push(s.last()) =~= s);
    }
}

/// Normalizing twice gives what normalizing once gives.
pub proof fn lemma_normalize_idempotent(s: Seq<char>)
    ensures
        normalized(normalized(s)) == normalized(s),
{
    lemma_normalized_is_tidy(s);
    lemma_tidy_is_fixed(normalized(s));
}

/// The maximal runs of non-whitespace characters of `s`, in order.
pub open spec fn words(s: Seq<char>) -> Seq<Seq<char>>
    decreases s.len(),
{
    if s.len() == 0 {
        Seq::empty()
    } else {
        let before = words(s.drop_last());
        if is_space(s.last()) {
            before
        } else if s.len() >= 2 && !is_space(s[s.len() - 2]) && before.len() > 0 {
            before.drop_last().push(before.last().push(s.last()))
        } else {
            before.push(seq![s.last()])
        }
    }
}

/// No word is empty; a text that does not end in whitespace has a word;
/// and a text without words is all whitespace.
pub proof fn lemma_words(s: Seq<char>)
    ensures
        forall|i: int| 0 <= i < words(s).len() ==> (#[trigger] words(s)[i]).len() > 0,
        s.len() > 0 && !is_space(s.last()) ==> words(s).len() > 0,
        words(s).len() == 0 ==> forall|i: int| 0 <= i < s.len() ==> is_space(#[trigger] s[i]),
    decreases s.len(),
{
    if s.len() > 0 {
        let init = s.drop_last();
        lemma_words(init);
        let before = words(init);
        let w = words(s);
        if is_space(s.last()) {
            assert forall|i: int| 0 <= i < s.len() && w.len() == 0 implies is_space(
                #[trigger] s[i],
            ) by {
                if i < init.len() {
                    assert(init[i] == s[i]);
                }
            }
        } else if s.len() >= 2 && !is_space(s[s.len() - 2]) && before.len() > 0 {
            assert forall|i: int| 0 <= i < w.len() implies (#[trigger] w[i]).len() > 0 by {
                if i < before.len() - 1 {
                    assert(w[i] == before[i]);
                }
            }
        } else {
            assert forall|i: int| 0 <= i < w.len() implies (#[trigger] w[i]).len() > 0 by {
                if i < before.len() {
                    assert(w[i] == before[i]);
                }
            }
        }
    }
}

/// The words `ws` with one space between each two.
pub open spec fn joined(ws: Seq<Seq<char>>) -> Seq<char>
    decreases ws.len(),
{
    if ws.len() == 0 {
        Seq::empty()
    } else if ws.len() == 1 {
        ws[0]
    } else {
        joined(ws.drop_last()) + seq![' '] + ws.last()
    }
}

/// The words of `s` with one space between each two, one space before
/// them where `s` begins with whitespace and one behind them where it ends
/// with whitespace; one space alone where `s` has whitespace and no word.
pub open spec fn framed(s: Seq<char>) -> Seq<char> {
    if words(s).len() == 0 {
        if s.len() > 0 {
            seq![' ']
        } else {
            Seq::empty()
        }
    } else {
        (if is_space(s[0]) {
            seq![' ']
        } else {
            Seq::empty()
        }) + joined(words(s)) + (if is_space(s.last()) {
            seq![' ']
        } else {
            Seq::empty()
        })
    }
}

/// Normalizing a text leaves its words, single spaces between them, and
/// one space at each end that had whitespace.
pub proof fn lemma_normalized_is_framed(s: Seq<char>)
    ensures
        normalized(s) == framed(s),
    decreases s.len(),
{
    if s.len() > 0 {
        let t = s.drop_last();
        let c = s.last();
        lemma_normalized_is_framed(t);
        lemma_words(t);
        lemma_words(s);
        let before = words(t);
        let lead = if is_space(s[0]) {
            seq![' ']
        } else {
            Seq::<char>::empty()
        };
        if t.len() > 0 {
            assert(t[0] == s[0]);
            assert(t.last() == s[s.len() - 2]);
        }
        if is_space(c) {
            assert(words(s) == before);
            if t.len() == 0 {
                assert(normalized(s) =~= seq![' ']);
            } else if is_space(t.last()) {
                assert(normalized(s) == normalized(t));
            } else {
                assert(normalized(s) == normalized(t).push(' '));
                assert(framed(t) =~= lead + joined(before));
                assert(framed(s) =~= (lead + joined(before)).push(' '));
            }
        } else if t.len() > 0 && !is_space(t.last()) {
            let last = before.last();
            assert(words(s) == before.drop_last().push(last.push(c)));
            assert(joined(words(s)) =~= joined(before).push(c)) by {
                let grown = before.drop_last().push(last.push(c));
                if before.len() == 1 {
                    assert(grown[0] == last.push(c));
                } else {
                    assert(grown.drop_last() =~= before.drop_last());
                    assert(grown.last() == last.push(c));
                }
            }
            assert(framed(t) =~= lead + joined(before));
            assert(framed(s) =~= (lead + joined(before)).push(c));
        } else {
            let grown = before.push(seq![c]);
            assert(words(s) == grown);
            assert(grown.drop_last() =~= before);
            assert(grown.last() == seq![c]);
            if t.len() == 0 {
                assert(normalized(s) =~= seq![c]);
                assert(framed(s) =~= seq![c]);
            } else if before.len() == 0 {
                assert(is_space(t[0]));
                assert(framed(t) =~= seq![' ']);
                assert(joined(grown) =~= seq![c]);
                assert(framed(s) =~= seq![' ', c]);
                assert(normalized(s) =~= seq![' ', c]);
            } else {
                assert(joined(grown) =~= joined(before) + seq![' '] + seq![c]);
                assert(framed(t) =~= lead + joined(before) + seq![' ']);
                assert(framed(s) =~= (lead + joined(before) + seq![' ']).push(c));
            }
        }
    }
}

/// Whether `c` is one of the ASCII digits `0` to `9`.
pub open spec fn is_digit(c: char) -> bool {
    0x30 <= c as u32 <= 0x39
}

/// The value of the ASCII digit `c`.
pub open spec fn digit_value(c: char) -> nat {
    (c as u32 - 0x30) as nat
}

/// Whether every character of `s` is an ASCII digit.
pub open spec fn all_digits(s: Seq<char>) -> bool {
    forall|i: int| 0 <= i < s.len() ==> is_digit(#[trigger] s[i])
}

/// The number that the digits of `s` denote in base ten; 0 for no digits.
pub open spec fn digits_value(s: Seq<char>) -> nat
    decreases s.len(),
{
    if s.len() == 0 {
        0
    } else {
        10 * digits_value(s.drop_last()) + digit_value(s.last())
    }
}

/// The digits of `s` once an optional leading `+` is set aside.
pub open spec fn unsigned_digits(s: Seq<char>) -> Seq<char> {
    if s.len() > 0 && s[0] == '+' {
        s.skip(1)
    } else {
        s
    }
}

/// The `u32` that `s` denotes: an optional `+`, then one or more ASCII
/// digits whose value fits; `None` for any other text.
pub open spec fn parsed_u32(s: Seq<char>) -> Option<u32> {
    let digits = unsigned_digits(s);
    if digits.len() > 0 && all_digits(digits) && digits_value(digits) <= u32::MAX {
        Some(digits_value(digits) as u32)
    } else {
        None
    }
}

/// The characters of `s`, in order.
pub fn to_chars(s: &str) -> (chars: Vec<char>)
    ensures
        chars@ == s@,
{
    let mut chars: Vec<char> = Vec::new();
    for c in it: s.chars()
        invariant
            it.seq() == s@,
            chars@ == s@.take(it.index() as int),
    {
        let ghost i = it.index() as int;
        chars.push(c);
        proof {
            assert(s@.take(i + 1) =~= s@.take(i).push(c));
        }
    }
    proof {
        assert(s@.take(s@.len() as int) =~= s@);
    }
    chars
}

/// Executable form of [`is_digit`].
pub fn is_ascii_digit(c: char) -> (r: bool)
    ensures
        r == is_digit(c),
{
    let n: u32 = c as u32;
    0x30 <= n && n <= 0x39
}

/// `n` where it fits a `u32`, and one more than the largest `u32` where it
/// does not.
pub open spec fn capped(n: nat) -> nat {
    if n <= u32::MAX {
        n
    } else {
        0x1_0000_0000
    }
}

/// Reads the leading digits of `chars[from..to]` as a number, capped, and
/// says where they end.
pub fn read_digits(chars: &Vec<char>, from: usize, to: usize) -> (r: (u64, usize))
    requires
        from <= to <= chars.len(),
    ensures
        from <= r.1 <= to,
        all_digits(chars@.subrange(from as int, r.1 as int)),
        r.1 < to ==> !is_digit(chars@[r.1 as int]),
        r.0 == capped(digits_value(chars@.subrange(from as int, r.1 as int))),
{
    let mut acc: u64 = 0;
    let mut i: usize = from;
    while i < to && is_ascii_digit(chars[i])
        invariant
            from <= i <= to <= chars.len(),
            all_digits(chars@.subrange(from as int, i as int)),
            acc == capped(digits_value(chars@.subrange(from as int, i as int))),
        decreases to - i,
    {
        let n: u32 = chars[i] as u32;
        let ghost before = chars@.subrange(from as int, i as int);
        let ghost after = chars@.subrange(from as int, i + 1);
        proof {
            assert(after.drop_last() =~= before);
            assert(after.last() == chars@[i as int]);
            assert forall|k: int| 0 <= k < after.len() implies is_digit(#[trigger] after[k]) by {
                if k < before.len() {
                    assert(after[k] == before[k]);
                }
            }
        }
        if acc <= u32::MAX as u64 {
            acc = acc * 10 + (n - 0x30) as u64;
            if acc > u32::MAX as u64 {
                acc = u32::MAX as u64 + 1;
            }
        }
        i = i + 1;
    }
    (acc, i)
}

/// Reads a decimal `u32`, rejecting empty, signed-negative, non-digit and
/// out-of-range texts.
pub fn parse_u32_chars(chars: &Vec<char>, from: usize, to: usize) -> (r: Option<u32>)
    requires
        from <= to <= chars.len(),
    ensures
        r == parsed_u32(chars@.subrange(from as int, to as int)),
{
    let ghost s = chars@.subrange(from as int, to as int);
    let start = if from < to && chars[from] == '+' {
        from + 1
    } else {
        from
    };
    proof {
        assert(chars@.subrange(start as int, to as int) =~= unsigned_digits(s));
    }
    let (value, end) = read_digits(chars, start, to);
    proof {
        let digits = unsigned_digits(s);
        if end < to {
            assert(digits[end - start] == chars@[end as int]);
        }
    }
    if end == to && start < to && value <= u32::MAX as u64 {
        Some(value as u32)
    } else {
        None
    }
}

/// Reads a decimal `u32`, rejecting empty, signed-negative, non-digit and
/// out-of-range texts.
pub fn parse_u32(s: &str) -> (r: Option<u32>)
    ensures
        r == parsed_u32(s@),
{
    let chars = to_chars(s);
    proof {
        assert(chars@.subrange(0, chars@.len() as int) =~= s@);
    }
    parse_u32_chars(&chars, 0, chars.len())
}

/// The character that writes the digit `d`.
pub open spec fn digit_char(d: nat) -> char {
    if d == 0 {
        '0'
    } else if d == 1 {
        '1'
    } else if d == 2 {
        '2'
    } else if d == 3 {
        '3'
    } else if d == 4 {
        '4'
    } else if d == 5 {
        '5'
    } else if d == 6 {
        '6'
    } else if d == 7 {
        '7'
    } else if d == 8 {
        '8'
    } else {
        '9'
    }
}

/// The shortest decimal notation of `n`.
pub open spec fn decimal_text(n: nat) -> Seq<char>
    decreases n,
{
    if n < 10 {
        seq![digit_char(n)]
    } else {
        decimal_text(n / 10).push(digit_char(n % 10))
    }
}

fn digit_to_char(d: u128) -> (c: char)
    requires
        d < 10,
    ensures
        c == digit_char(d as nat),
{
    if d == 0 {
        '0'
    } else if d == 1 {
        '1'
    } else if d == 2 {
        '2'
    } else if d == 3 {
        '3'
    } else if d == 4 {
        '4'
    } else if d == 5 {
        '5'
    } else if d == 6 {
        '6'
    } else if d == 7 {
        '7'
    } else if d == 8 {
        '8'
    } else {
        '9'
    }
}

/// Appends the decimal notation of `n` to `out`.
pub fn push_decimal(out: &mut String, n: u128)
    ensures
        final(out)@ == old(out)@ + decimal_text(n as nat),
    decreases n,
{
    if n < 10 {
        out.push(digit_to_char(n));
        proof {
            assert(old(out)@.push(digit_char(n as nat)) =~= old(out)@ + decimal_text(n as nat));
        }
    } else {
        push_decimal(out, n / 10);
        out.push(digit_to_char(n % 10));
        proof {
            assert((old(out)@ + decimal_text((n / 10) as nat)).push(digit_char((n % 10) as nat))
                =~= old(out)@ + decimal_text(n as nat));
        }
    }
}

/// Appends the characters of `s` to `out`.
pub fn push_text(out: &mut String, s: &str)
    ensures
        final(out)@ == old(out)@ + s@,
{
    for c in it: s.chars()
        invariant
            it.seq() == s@,
            out@ == old(out)@ + s@.take(it.index() as int),
    {
        let ghost i = it.index() as int;
        out.push(c);
        proof {
            assert(s@.take(i + 1) =~= s@.take(i).push(c));
            assert((old(out)@ + s@.take(i)).push(c) =~= old(out)@ + s@.take(i + 1));
        }
    }
    proof {
        assert(s@.take(s@.len() as int) =~= s@);
    }
}

/// `s` without its leading run of the character `c`.
pub open spec fn without_leading(s: Seq<char>, c: char) -> Seq<char>
    decreases s.len(),
{
    if s.len() > 0 && s[0] == c {
        without_leading(s.skip(1), c)
    } else {
        s
    }
}

/// Removes every leading occurrence of `c` from `s`.
pub fn strip_leading(s: &str, c: char) -> (r: String)
    ensures
        r@ == without_leading(s@, c),
{
    let mut out = String::new();
    let mut started = false;
    proof {
        assert(s@.skip(0) =~= s@);
    }
    for x in it: s.chars()
        invariant
            it.seq() == s@,
            !started ==> out@.len() == 0 && without_leading(s@, c) == without_leading(
                s@.skip(it.index() as int),
                c,
            ),
            started ==> without_leading(s@, c) == out@ + s@.skip(it.index() as int),
    {
        let ghost i = it.index() as int;
        proof {
            assert(s@.skip(i).skip(1) =~= s@.skip(i + 1));
            assert(s@.skip(i)[0] == x);
        }
        if started || x != c {
            let ghost prev = out@;
            out.push(x);
            proof {
                assert(s@.skip(i) =~= seq![x] + s@.skip(i + 1));
                assert(prev + s@.skip(i) =~= prev.push(x) + s@.skip(i + 1));
            }
            started = true;
        }
    }
    proof {
        assert(s@.skip(s@.len() as int) =~= Seq::<char>::empty());
    }
    out
}

} // verus!
