//! Clock values: a count of milliseconds written as hours, minutes, seconds
//! and a fraction, for people and for subtitle files.

use crate::decimal::{
    decimal, decimal_value, lemma_decimal_is_digits, lemma_zero_padded_round_trip, push_decimal,
    push_zero_padded, zero_padded,
};
use crate::text::push_char;
use vstd::prelude::*;

verus! {

/// The largest unit that a clock value is written with.
#[derive(Debug, Clone, Copy, PartialEq, Eq, PartialOrd, Ord)]
pub enum ClockScale {
    /// Seconds and hundredths: `s.cs`.
    Seconds,
    /// Minutes, seconds and hundredths: `m:ss.cs`.
    Minutes,
    /// Hours, minutes, seconds and hundredths: `h:mm:ss.cs`.
    Hours,
}

/// The scale that is used where none is asked for: minutes.
pub open spec fn scale_or_default(scale: Option<ClockScale>) -> ClockScale {
    match scale {
        Some(s) => s,
        None => ClockScale::Minutes,
    }
}

/// The clock value of `total_ms` milliseconds at the given scale. The
/// largest unit is written without padding and is not reduced; each smaller
/// unit takes two digits; the fraction is in hundredths of a second, the
/// odd milliseconds cut off.
pub open spec fn clock_text(total_ms: nat, scale: ClockScale) -> Seq<char> {
    let cs = (total_ms % 1000) / 10;
    let s = total_ms / 1000;
    let m = s / 60;
    let h = m / 60;
    match scale {
        ClockScale::Hours => decimal(h) + seq![':'] + zero_padded(m % 60, 2) + seq![':']
            + zero_padded(s % 60, 2) + seq!['.'] + zero_padded(cs, 2),
        ClockScale::Minutes => decimal(m) + seq![':'] + zero_padded(s % 60, 2) + seq!['.']
            + zero_padded(cs, 2),
        ClockScale::Seconds => decimal(s) + seq!['.'] + zero_padded(cs, 2),
    }
}

/// The subtitle timestamp of `total_ms` milliseconds: `HH:MM:SS,mmm`, the
/// hours with at least two digits, minutes and seconds with two, the
/// milliseconds with three.
pub open spec fn srt_timestamp(total_ms: nat) -> Seq<char> {
    let ms = total_ms % 1000;
    let s = total_ms / 1000;
    let m = s / 60;
    let h = m / 60;
    zero_padded(h, 2) + seq![':'] + zero_padded(m % 60, 2) + seq![':'] + zero_padded(s % 60, 2)
        + seq![','] + zero_padded(ms, 3)
}

/// The milliseconds that a subtitle timestamp `t` stands for: its last
/// three characters are the milliseconds, the two before the comma the
/// seconds, the two before that colon the minutes, and all before that
/// colon the hours.
pub open spec fn srt_timestamp_value(t: Seq<char>) -> nat
    recommends
        t.len() >= 12,
{
    let n = t.len() as int;
    let h = decimal_value(t.subrange(0, n - 10));
    let m = decimal_value(t.subrange(n - 9, n - 7));
    let s = decimal_value(t.subrange(n - 6, n - 4));
    let ms = decimal_value(t.subrange(n - 3, n));
    ((h * 60 + m) * 60 + s) * 1000 + ms
}

/// Reading a subtitle timestamp back, as hours, minutes, seconds and
/// milliseconds, gives the count of milliseconds that it was written from.
pub proof fn law_srt_timestamp_round_trip(total_ms: nat)
    ensures
        srt_timestamp(total_ms).len() >= 12,
        srt_timestamp_value(srt_timestamp(total_ms)) == total_ms,
{
    let ms = total_ms % 1000;
    let s = total_ms / 1000;
    let m = s / 60;
    let h = m / 60;
    let hh = zero_padded(h, 2);
    let mm = zero_padded(m % 60, 2);
    let ss = zero_padded(s % 60, 2);
    let mmm = zero_padded(ms, 3);
    lemma_zero_padded_round_trip(h, 2);
    lemma_zero_padded_round_trip(m % 60, 2);
    lemma_zero_padded_round_trip(s % 60, 2);
    lemma_zero_padded_round_trip(ms, 3);
    lemma_decimal_is_digits(m % 60);
    lemma_decimal_is_digits(s % 60);
    lemma_decimal_is_digits(ms);
    assert(mm.len() == 2);
    assert(ss.len() == 2);
    assert(mmm.len() == 3);
    let t = srt_timestamp(total_ms);
    let n = t.len() as int;
    assert(n == hh.len() + 10);
    assert(t.subrange(0, n - 10) =~= hh);
    assert(t.subrange(n - 9, n - 7) =~= mm);
    assert(t.subrange(n - 6, n - 4) =~= ss);
    assert(t.subrange(n - 3, n) =~= mmm);
}

/// Writes `total_ms` milliseconds as a clock value at the scale
/// `min_clock_scale`, or in minutes where none is given.
pub fn format_clock_value(total_ms: u32, min_clock_scale: Option<ClockScale>) -> (r: String)
    ensures
        r@ == clock_text(total_ms as nat, scale_or_default(min_clock_scale)),
{
    let scale = match min_clock_scale {
        Some(s) => s,
        None => ClockScale::Minutes,
    };
    let cs: u32 = (total_ms % 1000) / 10;
    let s: u32 = total_ms / 1000;
    let m: u32 = s / 60;
    let h: u32 = m / 60;
    let mut out = String::new();
    match scale {
        ClockScale::Hours => {
            push_decimal(&mut out, h as u64);
            push_char(&mut out, ':');
            push_zero_padded(&mut out, (m % 60) as u64, 2);
            push_char(&mut out, ':');
            push_zero_padded(&mut out, (s % 60) as u64, 2);
        },
        ClockScale::Minutes => {
            push_decimal(&mut out, m as u64);
            push_char(&mut out, ':');
            push_zero_padded(&mut out, (s % 60) as u64, 2);
        },
        ClockScale::Seconds => {
            push_decimal(&mut out, s as u64);
        },
    }
    push_char(&mut out, '.');
    push_zero_padded(&mut out, cs as u64, 2);
    assert(out@ =~= clock_text(total_ms as nat, scale));
    out
}

/// Writes `total_ms` milliseconds as a subtitle timestamp.
pub fn format_srt_value(total_ms: u32) -> (r: String)
    ensures
        r@ == srt_timestamp(total_ms as nat),
{
    let ms: u32 = total_ms % 1000;
    let s: u32 = total_ms / 1000;
    let m: u32 = s / 60;
    let h: u32 = m / 60;
    let mut out = String::new();
    push_zero_padded(&mut out, h as u64, 2);
    push_char(&mut out, ':');
    push_zero_padded(&mut out, (m % 60) as u64, 2);
    push_char(&mut out, ':');
    push_zero_padded(&mut out, (s % 60) as u64, 2);
    push_char(&mut out, ',');
    push_zero_padded(&mut out, ms as u64, 3);
    assert(out@ =~= srt_timestamp(total_ms as nat));
    out
}

} // verus!
