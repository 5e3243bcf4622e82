//! The CRC-16 that closes every packet.

use vstd::prelude::*;
use crate::bits::{byte_bit, bytes_to_bits, lemma_pack_unpack};

verus! {

/// One turn of the shift register with generator polynomial 0x1021: the
/// register moves up by one bit, and the polynomial is added where the bit
/// that leaves it is set.
pub open spec fn crc16_shift(value: u16) -> u16 {
    (value << 1) ^ (if value & 0x8000 != 0 {
        0x1021u16
    } else {
        0u16
    })
}

/// What eight turns make of `index` in the high byte of the register.
pub open spec fn crc16_entry(index: u8) -> u16 {
    crc16_shift(
        crc16_shift(
            crc16_shift(
                crc16_shift(
                    crc16_shift(crc16_shift(crc16_shift(crc16_shift((index as u16) << 8)))),
                ),
            ),
        ),
    )
}

/// The register after one more byte.
pub open spec fn crc16_update(reg: u16, byte: u8) -> u16 {
    crc16_entry(((reg >> 8) as u8) ^ byte) ^ (reg << 8)
}

/// The CRC-16 of `bytes` with generator polynomial 0x1021, the register
/// starting at `init`, nothing reflected and no final exclusive-or. With `init`
/// 0xFFFF this is CRC-16/IBM-3740.
#[verifier::opaque]
pub open spec fn crc16(init: u16, bytes: Seq<u8>) -> u16
    decreases bytes.len(),
{
    if bytes.len() == 0 {
        init
    } else {
        crc16_update(crc16(init, bytes.drop_last()), bytes.last())
    }
}

/// The register after one more bit: the bit is added to the bit that leaves
/// the register, and the register turns.
pub open spec fn crc16_bit(reg: u16, bit: bool) -> u16 {
    crc16_shift(if bit {
        reg ^ 0x8000
    } else {
        reg
    })
}

/// The register after the bits of `bits`, from `init`: the CRC computed bit
/// by bit.
#[verifier::opaque]
pub open spec fn crc16_bits(init: u16, bits: Seq<bool>) -> u16
    decreases bits.len(),
{
    if bits.len() == 0 {
        init
    } else {
        crc16_bit(crc16_bits(init, bits.drop_last()), bits.last())
    }
}

/// Register start value for packets sent byte-aligned.
pub const CRC_INIT_FIXED: u16 = 0xFFFF;

/// Register start value for Enhanced ShockBurst packets. Their buffer is led
/// by seven zero bits so that the 9-bit control field ends on a byte; from this
/// value those seven bits bring the register to 0xFFFF, where the CRC of the
/// bits on the air starts.
pub const CRC_INIT_SHOCKBURST: u16 = 0x3C18;

/// The two bytes of `value`, high byte first.
pub open spec fn crc_bytes(value: u16) -> Seq<u8> {
    seq![(value >> 8) as u8, (value & 0xff) as u8]
}

/// The sixteen bits of `value` in the order they are sent: most significant
/// first.
pub open spec fn crc_bits(value: u16) -> Seq<bool> {
    bytes_to_bits(crc_bytes(value))
}

/// The two bytes of `value`, high byte first.
pub fn crc_trailer(value: u16) -> (bytes: [u8; 2])
    ensures
        bytes@ == crc_bytes(value),
{
    assert(value >> 8 <= 0xff) by (bit_vector);
    assert(value & 0xff <= 0xff) by (bit_vector);
    [(value >> 8) as u8, (value & 0xff) as u8]
}

/// `crc::Crc::<u16>::digest_with_initial`, `update` and `finalize` on the
/// CRC-16/IBM-3740 algorithm: the checksum of `bytes` with the register
/// started at `init` in place of the algorithm's own start value. For every
/// byte the register becomes the table entry of its high byte added to the
/// byte, added to the register moved up by eight bits; the table entry of an
/// index is what eight turns make of it.
#[verifier::external_body]
pub(crate) fn crc16_checksum(init: u16, bytes: &[u8]) -> (value: u16)
    ensures
        value == crc16(init, bytes@),
{
    let engine = crc::Crc::<u16>::new(&crc::CRC_16_IBM_3740);
    let mut digest = engine.digest_with_initial(init);
    digest.update(bytes);
    digest.finalize()
}

/// One byte does to the register what its eight bits do, the most
/// significant first.
proof fn lemma_update_is_eight_bits(reg: u16, byte: u8)
    by (bit_vector)
    ensures
        crc16_update(reg, byte) == crc16_bit(
            crc16_bit(
                crc16_bit(
                    crc16_bit(
                        crc16_bit(
                            crc16_bit(
                                crc16_bit(crc16_bit(reg, byte & 0x80 != 0), byte & 0x40 != 0),
                                byte & 0x20 != 0,
                            ),
                            byte & 0x10 != 0,
                        ),
                        byte & 0x08 != 0,
                    ),
                    byte & 0x04 != 0,
                ),
                byte & 0x02 != 0,
            ),
            byte & 0x01 != 0,
        ),
{
}

/// The register after one more of the bits of `bits`.
pub proof fn lemma_one_more_bit(init: u16, bits: Seq<bool>, m: int)
    requires
        0 <= m < bits.len(),
    ensures
        crc16_bits(init, bits.take(m + 1)) == crc16_bit(crc16_bits(init, bits.take(m)), bits[m]),
{
    reveal_with_fuel(crc16_bits, 2);
    assert(bits.take(m + 1).drop_last() =~= bits.take(m));
}

/// The register after the last eight of at least eight bits.
proof fn lemma_last_eight_bits(init: u16, bits: Seq<bool>)
    requires
        bits.len() >= 8,
    ensures
        crc16_bits(init, bits) == {
            let n = bits.len() as int;
            crc16_bit(
                crc16_bit(
                    crc16_bit(
                        crc16_bit(
                            crc16_bit(
                                crc16_bit(
                                    crc16_bit(
                                        crc16_bit(crc16_bits(init, bits.take(n - 8)), bits[n - 8]),
                                        bits[n - 7],
                                    ),
                                    bits[n - 6],
                                ),
                                bits[n - 5],
                            ),
                            bits[n - 4],
                        ),
                        bits[n - 3],
                    ),
                    bits[n - 2],
                ),
                bits[n - 1],
            )
        },
{
    let n = bits.len() as int;
    assert(bits.take(n) =~= bits);
    lemma_one_more_bit(init, bits, n - 8);
    lemma_one_more_bit(init, bits, n - 7);
    lemma_one_more_bit(init, bits, n - 6);
    lemma_one_more_bit(init, bits, n - 5);
    lemma_one_more_bit(init, bits, n - 4);
    lemma_one_more_bit(init, bits, n - 3);
    lemma_one_more_bit(init, bits, n - 2);
    lemma_one_more_bit(init, bits, n - 1);
}

/// The CRC of bytes is the CRC of their bits, computed bit by bit, most
/// significant bit first.
pub proof fn lemma_crc_is_bitwise(init: u16, bytes: Seq<u8>)
    ensures
        crc16(init, bytes) == crc16_bits(init, bytes_to_bits(bytes)),
    decreases bytes.len(),
{
    reveal_with_fuel(crc16, 2);
    reveal_with_fuel(crc16_bits, 2);
    if bytes.len() > 0 {
        let bits = bytes_to_bits(bytes);
        let n = bits.len() as int;
        let last = bytes.last();
        lemma_crc_is_bitwise(init, bytes.drop_last());
        assert(bits.take(n - 8) =~= bytes_to_bits(bytes.drop_last()));
        lemma_last_eight_bits(init, bits);
        lemma_update_is_eight_bits(crc16(init, bytes.drop_last()), last);
        assert forall|k: int| 0 <= k < 8 implies bits[n - 8 + k] == byte_bit(last, k) by {
            assert((n - 8 + k) / 8 == bytes.len() - 1);
            assert((n - 8 + k) % 8 == k);
        }
        assert(bits[n - 8] == byte_bit(last, 0));
        assert(bits[n - 7] == byte_bit(last, 1));
        assert(bits[n - 6] == byte_bit(last, 2));
        assert(bits[n - 5] == byte_bit(last, 3));
        assert(bits[n - 4] == byte_bit(last, 4));
        assert(bits[n - 3] == byte_bit(last, 5));
        assert(bits[n - 2] == byte_bit(last, 6));
        assert(bits[n - 1] == byte_bit(last, 7));
    }
}

/// The register after `a` and then `b` is the register after `a + b`.
pub proof fn lemma_crc_of_concat(init: u16, a: Seq<bool>, b: Seq<bool>)
    ensures
        crc16_bits(init, a + b) == crc16_bits(crc16_bits(init, a), b),
    decreases b.len(),
{
    reveal_with_fuel(crc16_bits, 2);
    if b.len() == 0 {
        assert(a + b =~= a);
    } else {
        lemma_crc_of_concat(init, a, b.drop_last());
        assert((a + b).drop_last() =~= a + b.drop_last());
    }
}

/// Two registers that differ stay different under the same bit, and two
/// different bits make of one register two.
proof fn lemma_bit_tells_apart(first: u16, second: u16, bit: bool)
    by (bit_vector)
    ensures
        first != second ==> crc16_bit(first, bit) != crc16_bit(second, bit),
        crc16_bit(first, true) != crc16_bit(first, false),
{
}

/// The CRC detects every single bit: two runs of bits that differ in one
/// place and nowhere else leave different registers.
pub proof fn lemma_crc_detects_one_bit(init: u16, a: Seq<bool>, b: Seq<bool>, k: int)
    requires
        a.len() == b.len(),
        0 <= k < a.len(),
        a[k] != b[k],
        forall|i: int| 0 <= i < a.len() && i != k ==> a[i] == b[i],
    ensures
        crc16_bits(init, a) != crc16_bits(init, b),
    decreases a.len(),
{
    reveal_with_fuel(crc16_bits, 2);
    let before_a = crc16_bits(init, a.drop_last());
    let before_b = crc16_bits(init, b.drop_last());
    if k == a.len() - 1 {
        assert(a.drop_last() =~= b.drop_last());
        lemma_bit_tells_apart(before_a, before_a, true);
    } else {
        lemma_crc_detects_one_bit(init, a.drop_last(), b.drop_last(), k);
        lemma_bit_tells_apart(before_a, before_b, a.last());
    }
}

/// Seven zero bits bring the register from the start value of Enhanced
/// ShockBurst to that of the plain CRC.
pub proof fn lemma_seven_zero_bits()
    ensures
        crc16_bits(CRC_INIT_SHOCKBURST, Seq::new(7, |i: int| false)) == CRC_INIT_FIXED,
{
    let zeros = Seq::new(7, |i: int| false);
    reveal_with_fuel(crc16_bits, 2);
    assert(crc16_bits(CRC_INIT_SHOCKBURST, zeros.take(0)) == CRC_INIT_SHOCKBURST);
    lemma_one_more_bit(CRC_INIT_SHOCKBURST, zeros, 0);
    lemma_one_more_bit(CRC_INIT_SHOCKBURST, zeros, 1);
    lemma_one_more_bit(CRC_INIT_SHOCKBURST, zeros, 2);
    lemma_one_more_bit(CRC_INIT_SHOCKBURST, zeros, 3);
    lemma_one_more_bit(CRC_INIT_SHOCKBURST, zeros, 4);
    lemma_one_more_bit(CRC_INIT_SHOCKBURST, zeros, 5);
    lemma_one_more_bit(CRC_INIT_SHOCKBURST, zeros, 6);
    assert(zeros.take(7) =~= zeros);
    assert(crc16_bit(
        crc16_bit(
            crc16_bit(
                crc16_bit(crc16_bit(crc16_bit(crc16_bit(0x3C18u16, false), false), false), false),
                false,
            ),
            false,
        ),
        false,
    ) == 0xFFFFu16) by (bit_vector);
}

/// Two values with the same sixteen bits are one value.
pub proof fn lemma_crc_bits_tell_apart(first: u16, second: u16)
    requires
        crc_bits(first) == crc_bits(second),
    ensures
        first == second,
{
    lemma_pack_unpack(crc_bytes(first));
    lemma_pack_unpack(crc_bytes(second));
    assert(crc_bytes(first)[0] == crc_bytes(second)[0]);
    assert(crc_bytes(first)[1] == crc_bytes(second)[1]);
    assert(((first >> 8) as u8 == (second >> 8) as u8 && (first & 0xff) as u8 == (second & 0xff) as u8)
        ==> first == second) by (bit_vector);
}

} // verus!
