//! Numbers and bytes as text.

use vstd::prelude::*;

verus! {

/// The character for the digit `n`, which is below sixteen, in lower case.
pub open spec fn digit(n: int) -> char {
    seq!['0', '1', '2', '3', '4', '5', '6', '7', '8', '9', 'a', 'b', 'c', 'd', 'e', 'f'][n]
}

/// `n` written in decimal, without leading zeros.
pub open spec fn decimal(n: nat) -> Seq<char>
    decreases n,
{
    if n < 10 {
        seq![digit(n as int)]
    } else {
        decimal(n / 10).push(digit((n % 10) as int))
    }
}

/// `bytes` in hexadecimal: two lower-case digits per byte, the high one first.
pub open spec fn hex_text(bytes: Seq<u8>) -> Seq<char> {
    Seq::new(
        2 * bytes.len(),
        |i: int|
            if i % 2 == 0 {
                digit(bytes[i / 2] as int / 16)
            } else {
                digit(bytes[i / 2] as int % 16)
            },
    )
}

/// The decimal digits of a number below 256.
pub proof fn lemma_decimal_of_byte(n: u8)
    ensures
        n < 10 ==> decimal(n as nat) == seq![digit(n as int)],
        10 <= n < 100 ==> decimal(n as nat) == seq![digit(n as int / 10), digit(n as int % 10)],
        100 <= n ==> decimal(n as nat) == seq![
            digit(n as int / 100),
            digit(n as int / 10 % 10),
            digit(n as int % 10),
        ],
{
    reveal_with_fuel(decimal, 3);
    if 10 <= n < 100 {
        assert(decimal(n as nat) =~= seq![digit(n as int / 10), digit(n as int % 10)]);
    }
    if 100 <= n {
        assert(n as nat / 10 / 10 == n as nat / 100);
        assert(decimal(n as nat) =~= seq![
            digit(n as int / 100),
            digit(n as int / 10 % 10),
            digit(n as int % 10),
        ]);
    }
}

} // verus!
