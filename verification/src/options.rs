//! Checks on what the command line gives.

use vstd::prelude::*;
use vstd::string::*;
use crate::text::{decimal, digit, lemma_decimal_of_byte};

verus! {

/// The character for the digit `d`.
fn digit_char(d: u8) -> (c: char)
    requires
        d < 10,
    ensures
        c == digit(d as int),
{
    if d == 0 {
        '0'
    } else if d == 1 {
        '1'
    } else if d == 2 {
        '2'
    } else if d == 3 {
        '3'
    } else if d == 4 {
        '4'
    } else if d == 5 {
        '5'
    } else if d == 6 {
        '6'
    } else if d == 7 {
        '7'
    } else if d == 8 {
        '8'
    } else {
        '9'
    }
}

/// Whether `value` is `n` written in decimal, without leading zeros.
fn is_decimal_of(value: &str, n: u8) -> (same: bool)
    ensures
        same == (value@ == decimal(n as nat)),
{
    proof {
        lemma_decimal_of_byte(n);
    }
    let len: usize = value.unicode_len();
    if n < 10 {
        let same = len == 1 && value.get_char(0) == digit_char(n);
        assert(same ==> value@ =~= seq![digit(n as int)]);
        same
    } else if n < 100 {
        let same = len == 2 && value.get_char(0) == digit_char(n / 10) && value.get_char(1)
            == digit_char(n % 10);
        assert(same ==> value@ =~= seq![digit(n as int / 10), digit(n as int % 10)]);
        same
    } else {
        let same = len == 3 && value.get_char(0) == digit_char(n / 100) && value.get_char(1)
            == digit_char(n / 10 % 10) && value.get_char(2) == digit_char(n % 10);
        assert(same ==> value@ =~= seq![
            digit(n as int / 100),
            digit(n as int / 10 % 10),
            digit(n as int % 10),
        ]);
        same
    }
}

/// Whether `value` is a number from `min` to `max`, written in decimal
/// without leading zeros.
pub fn in_range(min: u8, max: u8, value: &str) -> (found: bool)
    ensures
        found == exists|n: nat| min <= n <= max && value@ == decimal(n),
{
    if min > max {
        return false;
    }
    let mut n: u8 = min;
    let mut found: bool = false;
    loop
        invariant_except_break
            !found,
            min <= n <= max,
            forall|m: nat| min <= m < n ==> value@ != decimal(m),
        ensures
            found == exists|n: nat| min <= n <= max && value@ == decimal(n),
        decreases max - n,
    {
        if is_decimal_of(value, n) {
            found = true;
            break;
        }
        if n == max {
            break;
        }
        n += 1;
    }
    found
}

/// The lowest and the highest of `channels`.
pub fn min_max_channel(channels: &[u8]) -> (bounds: (u8, u8))
    requires
        channels@.len() > 0,
    ensures
        channels@.contains(bounds.0),
        channels@.contains(bounds.1),
        forall|i: int|
            0 <= i < channels@.len() ==> bounds.0 <= #[trigger] channels@[i] && channels@[i]
                <= bounds.1,
{
    let mut lowest: u8 = channels[0];
    let mut highest: u8 = channels[0];
    let mut i: usize = 1;
    while i < channels.len()
        invariant
            1 <= i <= channels@.len(),
            channels@.contains(lowest),
            channels@.contains(highest),
            forall|j: int| 0 <= j < i ==> lowest <= #[trigger] channels@[j] && channels@[j] <= highest,
        decreases channels@.len() - i,
    {
        if channels[i] < lowest {
            lowest = channels[i];
        }
        if channels[i] > highest {
            highest = channels[i];
        }
        i += 1;
    }
    (lowest, highest)
}

} // verus!
