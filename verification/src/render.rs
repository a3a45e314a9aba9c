//! The texts that the user interface shows for moments and encounters: a
//! moment as `chrono` displays a UTC date and time, and an encounter's
//! duration as minutes and seconds.

use vstd::prelude::*;
use crate::datastructures::{CombatantList, CombatantListView};
use crate::parserfunctions::{Timestamp, TimestampView, unix_seconds};
use crate::text::{decimal, push_decimal, string_of};

verus! {

/// `n` zero digits.
pub open spec fn zeros(n: nat) -> Seq<char> {
    Seq::new(n, |i: int| '0')
}

/// `s` with zeros before it up to `w` characters.
pub open spec fn pad_zeros(s: Seq<char>, w: nat) -> Seq<char> {
    if s.len() >= w {
        s
    } else {
        zeros((w - s.len()) as nat) + s
    }
}

/// A year as a date shows it: four digits from 0 to 9999, else a sign and at
/// least four digits.
pub open spec fn year_text(y: int) -> Seq<char> {
    if 0 <= y <= 9999 {
        pad_zeros(decimal(y as nat), 4)
    } else if y < 0 {
        seq!['-'] + pad_zeros(decimal((-y) as nat), 4)
    } else {
        seq!['+'] + pad_zeros(decimal(y as nat), 4)
    }
}

/// A number below 100 in two digits.
pub open spec fn two_digits(n: int) -> Seq<char> {
    pad_zeros(decimal(n as nat), 2)
}

/// How a UTC moment is displayed: `YYYY-MM-DD HH:MM:SS UTC`.
pub open spec fn timestamp_text(t: TimestampView) -> Seq<char> {
    year_text(t.year) + seq!['-'] + two_digits(t.month) + seq!['-'] + two_digits(t.day) + seq![' ']
        + two_digits(t.hour) + seq![':'] + two_digits(t.minute) + seq![':'] + two_digits(t.second)
        + " UTC"@
}

/// An integer in decimal, with a minus sign where it is negative.
pub open spec fn signed_decimal(v: int) -> Seq<char> {
    if v < 0 {
        seq!['-'] + decimal((-v) as nat)
    } else {
        decimal(v as nat)
    }
}

/// An integer as `{:02}` writes it: zero-padded to two characters, the sign
/// counting as one.
pub open spec fn signed_two_digits(v: int) -> Seq<char> {
    if 0 <= v < 10 {
        seq!['0'] + decimal(v as nat)
    } else {
        signed_decimal(v)
    }
}

/// The duration from `start` to `end` as `minutes:seconds` and a line end,
/// both truncated toward zero (so a negative duration has both negative), the
/// seconds zero-padded to two characters.
pub open spec fn duration_text(start: TimestampView, end: TimestampView) -> Seq<char> {
    let d = unix_seconds(end) - unix_seconds(start);
    let m = if d < 0 { -d } else { d };
    let minutes = if d < 0 { -(m / 60) } else { m / 60 };
    let seconds = if d < 0 { -(m % 60) } else { m % 60 };
    signed_decimal(minutes) + seq![':'] + signed_two_digits(seconds) + seq!['\n']
}

/// Appends `n` zero-padded to `w` characters.
fn push_zero_padded(out: &mut Vec<char>, n: u64, w: usize)
    ensures
        final(out)@ == old(out)@ + pad_zeros(decimal(n as nat), w as nat),
{
    let mut digits: Vec<char> = Vec::new();
    push_decimal(&mut digits, n);
    assert(digits@ =~= decimal(n as nat));
    let mut i: usize = digits.len();
    while i < w
        invariant
            digits.len() <= i <= w || (i == digits.len() && i >= w),
            out@ == old(out)@ + zeros((i - digits.len()) as nat),
        decreases w - i,
    {
        out.push('0');
        i = i + 1;
        assert(out@ =~= old(out)@ + zeros((i - digits.len()) as nat));
    }
    let mut j: usize = 0;
    let ghost mid = out@;
    while j < digits.len()
        invariant
            j <= digits.len(),
            out@ == mid + digits@.take(j as int),
        decreases digits.len() - j,
    {
        out.push(digits[j]);
        j = j + 1;
        assert(out@ =~= mid + digits@.take(j as int));
    }
    assert(digits@.take(digits.len() as int) =~= digits@);
    if digits.len() >= w {
        assert(zeros(0) =~= Seq::<char>::empty());
        assert(out@ =~= old(out)@ + digits@);
    } else {
        assert(out@ =~= old(out)@ + (zeros((w - digits.len()) as nat) + digits@));
    }
}

/// Appends `v`, where it is negative as a minus sign and its magnitude `m`.
fn push_signed(out: &mut Vec<char>, negative: bool, m: u64)
    requires
        negative ==> m > 0,
    ensures
        final(out)@ == old(out)@ + signed_decimal(if negative { -(m as int) } else { m as int }),
{
    if negative {
        out.push('-');
    }
    push_decimal(out, m);
    proof {
        if negative {
            assert(final(out)@ =~= old(out)@ + (seq!['-'] + decimal(m as nat)));
        }
    }
}

impl Timestamp {
    /// The moment as `chrono` displays a UTC date and time:
    /// `YYYY-MM-DD HH:MM:SS UTC`.
    pub fn to_string(&self) -> (r: String)
        ensures
            r@ == timestamp_text(self@),
    {
        self.check_valid();
        let y = self.year();
        let mut out: Vec<char> = Vec::new();
        if 0 <= y && y <= 9999 {
            push_zero_padded(&mut out, y as u64, 4);
        } else if y < 0 {
            out.push('-');
            let m: i64 = -(y as i64);
            push_zero_padded(&mut out, m as u64, 4);
        } else {
            out.push('+');
            push_zero_padded(&mut out, y as u64, 4);
        }
        let ghost yt = out@;
        assert(yt =~= year_text(self@.year));
        out.push('-');
        push_zero_padded(&mut out, self.month() as u64, 2);
        out.push('-');
        push_zero_padded(&mut out, self.day() as u64, 2);
        out.push(' ');
        push_zero_padded(&mut out, self.hour() as u64, 2);
        out.push(':');
        push_zero_padded(&mut out, self.minute() as u64, 2);
        out.push(':');
        push_zero_padded(&mut out, self.second() as u64, 2);
        out.push(' ');
        out.push('U');
        out.push('T');
        out.push('C');
        proof {
            reveal_strlit(" UTC");
        }
        assert(out@ =~= timestamp_text(self@));
        string_of(&out)
    }
}

impl CombatantList {
    /// The encounter's duration as the user interface shows it: see
    /// `duration_text`.
    pub fn duration_text(&self) -> (r: String)
        ensures
            r@ == duration_text(self@.encounter_start, self@.encounter_end),
    {
        let e = self.encounter_end.unix_seconds();
        let s = self.encounter_start.unix_seconds();
        let d: i128 = (e as i128) - (s as i128);
        let negative = d < 0;
        let m: u64 = if negative { (-d) as u64 } else { d as u64 };
        assert(m == if d < 0 { -(d as int) } else { d as int });
        let minutes = m / 60;
        let seconds = m % 60;
        let mut out: Vec<char> = Vec::new();
        push_signed(&mut out, negative && minutes > 0, minutes);
        out.push(':');
        if (!negative || seconds == 0) && seconds < 10 {
            out.push('0');
            push_decimal(&mut out, seconds);
        } else {
            push_signed(&mut out, negative && seconds > 0, seconds);
        }
        out.push('\n');
        assert(out@ =~= duration_text(self@.encounter_start, self@.encounter_end));
        string_of(&out)
    }
}

} // verus!
