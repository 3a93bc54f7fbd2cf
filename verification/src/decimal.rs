//! Decimal notation: writing a number as digits and reading digits as a
//! number, with the proof that reading undoes writing.

use crate::text::push_char;
use vstd::prelude::*;

verus! {

/// Whether `c` is one of the ten ASCII digits.
pub open spec fn is_digit(c: char) -> bool {
    '0' <= c <= '9'
}

/// The digit that stands for `d`, for `d` below ten.
pub open spec fn digit_char(d: nat) -> char
    recommends
        d < 10,
{
    (d + 0x30) as u8 as char
}

/// The number that the digit `c` stands for.
pub open spec fn digit_value(c: char) -> nat
    recommends
        is_digit(c),
{
    (c as u32 - 0x30) as nat
}

/// `n` in decimal notation, without leading zeros: `0` is `"0"`.
pub open spec fn decimal(n: nat) -> Seq<char>
    decreases n,
{
    if n < 10 {
        seq![digit_char(n)]
    } else {
        decimal(n / 10).push(digit_char(n % 10))
    }
}

/// `count` zeros.
pub open spec fn zeros(count: nat) -> Seq<char> {
    Seq::new(count, |i: int| '0')
}

/// `n` in decimal notation, filled with leading zeros up to `width`
/// characters. A number with more digits than `width` keeps them all.
pub open spec fn zero_padded(n: nat, width: nat) -> Seq<char> {
    let digits = decimal(n);
    if digits.len() >= width {
        digits
    } else {
        zeros((width - digits.len()) as nat) + digits
    }
}

/// Ten to the power `e`.
pub open spec fn pow10(e: nat) -> nat
    decreases e,
{
    if e == 0 {
        1
    } else {
        10 * pow10((e - 1) as nat)
    }
}

/// Whether every character of `s` is a digit.
pub open spec fn all_digits(s: Seq<char>) -> bool {
    forall|i: int| 0 <= i < s.len() ==> is_digit(#[trigger] s[i])
}

/// The number that the digits `s` denote in decimal notation; the empty
/// sequence denotes zero.
pub open spec fn decimal_value(s: Seq<char>) -> nat
    decreases s.len(),
{
    if s.len() == 0 {
        0
    } else {
        decimal_value(s.drop_last()) * 10 + digit_value(s.last())
    }
}

/// A digit character stands for the number it was made from.
pub proof fn lemma_digit_round_trip(d: nat)
    requires
        d < 10,
    ensures
        is_digit(digit_char(d)),
        digit_value(digit_char(d)) == d,
{
}

/// Decimal notation holds digits only, and at least one.
pub proof fn lemma_decimal_is_digits(n: nat)
    ensures
        decimal(n).len() >= 1,
        all_digits(decimal(n)),
        n < 10 ==> decimal(n).len() == 1,
        10 <= n < 100 ==> decimal(n).len() == 2,
        100 <= n < 1000 ==> decimal(n).len() == 3,
    decreases n,
{
    if n < 10 {
        lemma_digit_round_trip(n);
    } else {
        lemma_decimal_is_digits(n / 10);
        lemma_digit_round_trip(n % 10);
        if n < 100 {
            assert(n / 10 < 10);
        } else if n < 1000 {
            assert(10 <= n / 10 < 100);
        }
    }
}

/// Reading the decimal notation of `n` gives `n`.
pub proof fn lemma_decimal_round_trip(n: nat)
    ensures
        decimal_value(decimal(n)) == n,
    decreases n,
{
    if n < 10 {
        lemma_digit_round_trip(n);
        let s = decimal(n);
        assert(s.drop_last() =~= Seq::<char>::empty());
        assert(decimal_value(s.drop_last()) == 0);
    } else {
        lemma_decimal_round_trip(n / 10);
        lemma_digit_round_trip(n % 10);
        let s = decimal(n);
        assert(s.drop_last() =~= decimal(n / 10));
        assert(s.last() == digit_char(n % 10));
    }
}

/// Leading zeros do not change what digits denote.
pub proof fn lemma_leading_zeros(count: nat, s: Seq<char>)
    ensures
        decimal_value(zeros(count) + s) == decimal_value(s),
    decreases s.len(), count,
{
    let t = zeros(count) + s;
    if s.len() == 0 {
        assert(t =~= zeros(count));
        if count > 0 {
            assert(t.drop_last() =~= zeros((count - 1) as nat) + s);
            lemma_leading_zeros((count - 1) as nat, s);
        }
    } else {
        assert(t.drop_last() =~= zeros(count) + s.drop_last());
        assert(t.last() == s.last());
        lemma_leading_zeros(count, s.drop_last());
    }
}

/// Reading the zero-padded notation of `n` gives `n`, whatever the width.
pub proof fn lemma_zero_padded_round_trip(n: nat, width: nat)
    ensures
        decimal_value(zero_padded(n, width)) == n,
        all_digits(zero_padded(n, width)),
        zero_padded(n, width).len() >= width,
        zero_padded(n, width).len() >= decimal(n).len(),
        decimal(n).len() <= width ==> zero_padded(n, width).len() == width,
{
    lemma_decimal_round_trip(n);
    lemma_decimal_is_digits(n);
    let digits = decimal(n);
    if digits.len() < width {
        lemma_leading_zeros((width - digits.len()) as nat, digits);
    }
}

proof fn lemma_pow10_twenty()
    ensures
        pow10(20) == 100_000_000_000_000_000_000,
{
    reveal_with_fuel(pow10, 21);
}

/// A number below ten to the power `k` takes at most `k` digits.
pub proof fn lemma_decimal_len_bound(n: nat, k: nat)
    requires
        k >= 1,
        n < pow10(k),
    ensures
        decimal(n).len() <= k,
    decreases n,
{
    if n >= 10 {
        if k == 1 {
            reveal_with_fuel(pow10, 2);
        }
        lemma_decimal_len_bound(n / 10, (k - 1) as nat);
    }
}

/// The digit that stands for `d`.
pub fn digit_of(d: u8) -> (c: char)
    requires
        d < 10,
    ensures
        c == digit_char(d as nat),
{
    (d + 0x30) as char
}

/// The number that the character `c` stands for, if `c` is a digit.
pub fn value_of_digit(c: char) -> (r: Option<u8>)
    ensures
        r is Some <==> is_digit(c),
        r matches Some(d) ==> d == digit_value(c) && d < 10,
{
    if '0' <= c && c <= '9' {
        Some((c as u32 - 0x30) as u8)
    } else {
        None
    }
}

/// Appends `n` in decimal notation to `out`.
pub fn push_decimal(out: &mut String, n: u64)
    ensures
        final(out)@ == old(out)@ + decimal(n as nat),
    decreases n,
{
    if n >= 10 {
        push_decimal(out, n / 10);
    }
    push_char(out, digit_of((n % 10) as u8));
    assert(final(out)@ =~= old(out)@ + decimal(n as nat));
}

/// The number of characters that `n` takes in decimal notation.
pub fn decimal_width(n: u64) -> (w: usize)
    ensures
        w == decimal(n as nat).len(),
        1 <= w <= 20,
{
    let mut w: usize = 1;
    let mut rest: u64 = n;
    proof {
        lemma_pow10_twenty();
        lemma_decimal_len_bound(n as nat, 20);
    }
    while rest >= 10
        invariant
            1 <= w,
            decimal(n as nat).len() == decimal(rest as nat).len() + w - 1,
            decimal(n as nat).len() <= 20,
        decreases rest,
    {
        proof {
            lemma_decimal_is_digits((rest / 10) as nat);
        }
        rest = rest / 10;
        w = w + 1;
    }
    proof {
        lemma_decimal_is_digits(rest as nat);
    }
    w
}

/// Appends `n` to `out` in decimal notation, filled with leading zeros up
/// to `width` characters.
pub fn push_zero_padded(out: &mut String, n: u64, width: usize)
    ensures
        final(out)@ == old(out)@ + zero_padded(n as nat, width as nat),
{
    let w = decimal_width(n);
    let mut i: usize = w;
    while i < width
        invariant
            w <= i,
            i <= width || i == w,
            out@ == old(out)@ + zeros((i - w) as nat),
        decreases width - i,
    {
        push_char(out, '0');
        i = i + 1;
        assert(out@ =~= old(out)@ + zeros((i - w) as nat));
    }
    push_decimal(out, n);
    assert(final(out)@ =~= old(out)@ + zero_padded(n as nat, width as nat));
}

} // verus!
