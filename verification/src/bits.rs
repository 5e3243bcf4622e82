//! Bit sequences and their packing into bytes, most significant bit first.

use vstd::prelude::*;

verus! {

/// The byte with only bit `k` set, counted from the most significant bit.
pub open spec fn msb_mask(k: int) -> u8 {
    if k == 0 {
        0x80u8
    } else if k == 1 {
        0x40u8
    } else if k == 2 {
        0x20u8
    } else if k == 3 {
        0x10u8
    } else if k == 4 {
        0x08u8
    } else if k == 5 {
        0x04u8
    } else if k == 6 {
        0x02u8
    } else if k == 7 {
        0x01u8
    } else {
        0u8
    }
}

/// Bit `k` of byte `b`, counted from the most significant bit.
pub open spec fn byte_bit(b: u8, k: int) -> bool {
    b & msb_mask(k) != 0
}

/// The bits of `bytes` in transmission order: eight per byte, most
/// significant first.
pub open spec fn bytes_to_bits(bytes: Seq<u8>) -> Seq<bool> {
    Seq::new(bytes.len() * 8, |i: int| byte_bit(bytes[i / 8], i % 8))
}

/// Bit `i` of `bits`, reading `false` past the end.
pub open spec fn bit_or_zero(bits: Seq<bool>, i: int) -> bool {
    0 <= i < bits.len() && bits[i]
}

/// `msb_mask(k)` where `bit_or_zero(bits, start + k)` holds, else zero.
pub open spec fn placed_bit(bits: Seq<bool>, start: int, k: int) -> u8 {
    if bit_or_zero(bits, start + k) {
        msb_mask(k)
    } else {
        0u8
    }
}

/// The byte whose bit `k`, counted from the most significant, is
/// `bit_or_zero(bits, start + k)`.
pub open spec fn pack_byte(bits: Seq<bool>, start: int) -> u8 {
    placed_bit(bits, start, 0) | placed_bit(bits, start, 1) | placed_bit(bits, start, 2)
        | placed_bit(bits, start, 3) | placed_bit(bits, start, 4) | placed_bit(bits, start, 5)
        | placed_bit(bits, start, 6) | placed_bit(bits, start, 7)
}

/// `bits` packed into bytes, most significant bit first; a last partial byte
/// is filled up with zero bits.
pub open spec fn bits_to_bytes(bits: Seq<bool>) -> Seq<u8> {
    Seq::new(((bits.len() + 7) / 8) as nat, |j: int| pack_byte(bits, 8 * j))
}

/// `n` zero bits.
pub open spec fn zeros(n: nat) -> Seq<bool> {
    Seq::new(n, |i: int| false)
}

/// The number that `bits` spell, most significant bit first.
pub open spec fn be_value(bits: Seq<bool>) -> nat
    decreases bits.len(),
{
    if bits.len() == 0 {
        0
    } else {
        2 * be_value(bits.drop_last()) + if bits.last() {
            1nat
        } else {
            0nat
        }
    }
}

/// The low six bits of `len`, most significant first: the length field of an
/// Enhanced ShockBurst packet control field.
pub open spec fn length_bits(len: u8) -> Seq<bool> {
    bytes_to_bits(seq![len]).skip(2)
}

/// `rev` holds the bytes of `bytes` in opposite order, each with its bits in
/// opposite order.
pub open spec fn is_mirror(bytes: Seq<u8>, rev: Seq<u8>) -> bool {
    &&& rev.len() == bytes.len()
    &&& forall|j: int, k: int|
        0 <= j < rev.len() && 0 <= k < 8 ==> #[trigger] byte_bit(rev[j], k) == byte_bit(
            bytes[bytes.len() - 1 - j],
            7 - k,
        )
}

/// The bits of a concatenation are the concatenation of the bits.
pub proof fn lemma_bits_of_concat(a: Seq<u8>, b: Seq<u8>)
    ensures
        bytes_to_bits(a + b) == bytes_to_bits(a) + bytes_to_bits(b),
{
    let lhs = bytes_to_bits(a + b);
    let rhs = bytes_to_bits(a) + bytes_to_bits(b);
    assert(lhs.len() == rhs.len());
    assert forall|i: int| 0 <= i < lhs.len() implies lhs[i] == rhs[i] by {
        if i < a.len() * 8 {
            assert((a + b)[i / 8] == a[i / 8]);
        } else {
            let j = i - a.len() * 8;
            assert(i / 8 == a.len() + j / 8);
            assert(i % 8 == j % 8);
            assert((a + b)[i / 8] == b[j / 8]);
        }
    }
    assert(lhs =~= rhs);
}

/// A byte is the union of its eight masked bits.
proof fn lemma_byte_from_masks(b: u8)
    by (bit_vector)
    ensures
        b == (if b & 0x80u8 != 0 { 0x80u8 } else { 0u8 })
            | (if b & 0x40u8 != 0 { 0x40u8 } else { 0u8 })
            | (if b & 0x20u8 != 0 { 0x20u8 } else { 0u8 })
            | (if b & 0x10u8 != 0 { 0x10u8 } else { 0u8 })
            | (if b & 0x08u8 != 0 { 0x08u8 } else { 0u8 })
            | (if b & 0x04u8 != 0 { 0x04u8 } else { 0u8 })
            | (if b & 0x02u8 != 0 { 0x02u8 } else { 0u8 })
            | (if b & 0x01u8 != 0 { 0x01u8 } else { 0u8 }),
{
}

/// Packing the bits of whole bytes gives the bytes back.
pub proof fn lemma_pack_unpack(bytes: Seq<u8>)
    ensures
        bits_to_bytes(bytes_to_bits(bytes)) == bytes,
{
    let bits = bytes_to_bits(bytes);
    let packed = bits_to_bytes(bits);
    assert(packed.len() == bytes.len());
    assert forall|j: int| 0 <= j < bytes.len() implies packed[j] == bytes[j] by {
        let b = bytes[j];
        assert forall|k: int| 0 <= k < 8 implies bit_or_zero(bits, 8 * j + k) == byte_bit(
            b,
            k,
        ) by {
            assert((8 * j + k) / 8 == j);
            assert((8 * j + k) % 8 == k);
        }
        assert(bit_or_zero(bits, 8 * j + 0) == byte_bit(b, 0));
        assert(bit_or_zero(bits, 8 * j + 1) == byte_bit(b, 1));
        assert(bit_or_zero(bits, 8 * j + 2) == byte_bit(b, 2));
        assert(bit_or_zero(bits, 8 * j + 3) == byte_bit(b, 3));
        assert(bit_or_zero(bits, 8 * j + 4) == byte_bit(b, 4));
        assert(bit_or_zero(bits, 8 * j + 5) == byte_bit(b, 5));
        assert(bit_or_zero(bits, 8 * j + 6) == byte_bit(b, 6));
        assert(bit_or_zero(bits, 8 * j + 7) == byte_bit(b, 7));
        lemma_byte_from_masks(b);
    }
    assert(packed =~= bytes);
}

/// Each bit of a byte put together from eight placed bits is the bit that
/// was placed there.
proof fn lemma_masks_from_byte(m0: u8, m1: u8, m2: u8, m3: u8, m4: u8, m5: u8, m6: u8, m7: u8)
    by (bit_vector)
    requires
        m0 == 0 || m0 == 0x80,
        m1 == 0 || m1 == 0x40,
        m2 == 0 || m2 == 0x20,
        m3 == 0 || m3 == 0x10,
        m4 == 0 || m4 == 0x08,
        m5 == 0 || m5 == 0x04,
        m6 == 0 || m6 == 0x02,
        m7 == 0 || m7 == 0x01,
    ensures
        ((m0 | m1 | m2 | m3 | m4 | m5 | m6 | m7) & 0x80 != 0) == (m0 != 0),
        ((m0 | m1 | m2 | m3 | m4 | m5 | m6 | m7) & 0x40 != 0) == (m1 != 0),
        ((m0 | m1 | m2 | m3 | m4 | m5 | m6 | m7) & 0x20 != 0) == (m2 != 0),
        ((m0 | m1 | m2 | m3 | m4 | m5 | m6 | m7) & 0x10 != 0) == (m3 != 0),
        ((m0 | m1 | m2 | m3 | m4 | m5 | m6 | m7) & 0x08 != 0) == (m4 != 0),
        ((m0 | m1 | m2 | m3 | m4 | m5 | m6 | m7) & 0x04 != 0) == (m5 != 0),
        ((m0 | m1 | m2 | m3 | m4 | m5 | m6 | m7) & 0x02 != 0) == (m6 != 0),
        ((m0 | m1 | m2 | m3 | m4 | m5 | m6 | m7) & 0x01 != 0) == (m7 != 0),
{
}

/// Bit `k` of a packed byte is the bit that was packed there.
pub proof fn lemma_packed_bit(bits: Seq<bool>, start: int, k: int)
    requires
        0 <= k < 8,
    ensures
        byte_bit(pack_byte(bits, start), k) == bit_or_zero(bits, start + k),
{
    lemma_masks_from_byte(
        placed_bit(bits, start, 0),
        placed_bit(bits, start, 1),
        placed_bit(bits, start, 2),
        placed_bit(bits, start, 3),
        placed_bit(bits, start, 4),
        placed_bit(bits, start, 5),
        placed_bit(bits, start, 6),
        placed_bit(bits, start, 7),
    );
}

/// The bits of packed bytes are the bits that were packed, followed by the
/// zero bits that filled the last byte.
pub proof fn lemma_unpack_pack(bits: Seq<bool>)
    ensures
        bytes_to_bits(bits_to_bytes(bits)).len() == 8 * ((bits.len() + 7) / 8),
        forall|i: int|
            0 <= i < 8 * ((bits.len() + 7) / 8) ==> #[trigger] bytes_to_bits(bits_to_bytes(bits))[i]
                == bit_or_zero(bits, i),
        bits.len() % 8 == 0 ==> bytes_to_bits(bits_to_bytes(bits)) == bits,
{
    let bytes = bits_to_bytes(bits);
    let back = bytes_to_bits(bytes);
    assert forall|i: int| 0 <= i < back.len() implies back[i] == bit_or_zero(bits, i) by {
        lemma_packed_bit(bits, 8 * (i / 8), i % 8);
    }
    if bits.len() % 8 == 0 {
        assert(back =~= bits);
    }
}

/// Read backwards, the bits of a mirror are the bits of the original.
pub proof fn lemma_mirror_bits(bytes: Seq<u8>, rev: Seq<u8>)
    requires
        is_mirror(bytes, rev),
    ensures
        bytes_to_bits(rev).reverse() == bytes_to_bits(bytes),
{
    let lhs = bytes_to_bits(rev).reverse();
    let rhs = bytes_to_bits(bytes);
    let n = bytes.len() as int;
    assert(lhs.len() == rhs.len());
    assert forall|i: int| 0 <= i < lhs.len() implies lhs[i] == rhs[i] by {
        let m = 8 * n - 1 - i;
        assert(lhs[i] == bytes_to_bits(rev)[m]);
        assert(m / 8 == n - 1 - i / 8);
        assert(m % 8 == 7 - i % 8);
        assert(byte_bit(rev[m / 8], m % 8) == byte_bit(bytes[n - 1 - m / 8], 7 - m % 8));
    }
    assert(lhs =~= rhs);
}

/// `x` with its eight bits in opposite order.
pub fn reverse_byte(x: u8) -> (r: u8)
    ensures
        forall|k: int| 0 <= k < 8 ==> #[trigger] byte_bit(r, k) == byte_bit(x, 7 - k),
{
    let r: u8 = (if x & 0x01u8 != 0 { 0x80u8 } else { 0u8 })
        | (if x & 0x02u8 != 0 { 0x40u8 } else { 0u8 })
        | (if x & 0x04u8 != 0 { 0x20u8 } else { 0u8 })
        | (if x & 0x08u8 != 0 { 0x10u8 } else { 0u8 })
        | (if x & 0x10u8 != 0 { 0x08u8 } else { 0u8 })
        | (if x & 0x20u8 != 0 { 0x04u8 } else { 0u8 })
        | (if x & 0x40u8 != 0 { 0x02u8 } else { 0u8 })
        | (if x & 0x80u8 != 0 { 0x01u8 } else { 0u8 });
    proof {
        assert((r & 0x80u8 != 0) == (x & 0x01u8 != 0) && (r & 0x40u8 != 0) == (x & 0x02u8 != 0)
            && (r & 0x20u8 != 0) == (x & 0x04u8 != 0) && (r & 0x10u8 != 0) == (x & 0x08u8 != 0)
            && (r & 0x08u8 != 0) == (x & 0x10u8 != 0) && (r & 0x04u8 != 0) == (x & 0x20u8 != 0)
            && (r & 0x02u8 != 0) == (x & 0x40u8 != 0) && (r & 0x01u8 != 0) == (x & 0x80u8 != 0))
            by (bit_vector)
            requires
                r == (if x & 0x01u8 != 0 { 0x80u8 } else { 0u8 })
                    | (if x & 0x02u8 != 0 { 0x40u8 } else { 0u8 })
                    | (if x & 0x04u8 != 0 { 0x20u8 } else { 0u8 })
                    | (if x & 0x08u8 != 0 { 0x10u8 } else { 0u8 })
                    | (if x & 0x10u8 != 0 { 0x08u8 } else { 0u8 })
                    | (if x & 0x20u8 != 0 { 0x04u8 } else { 0u8 })
                    | (if x & 0x40u8 != 0 { 0x02u8 } else { 0u8 })
                    | (if x & 0x80u8 != 0 { 0x01u8 } else { 0u8 }),
        ;
    }
    r
}

/// The bytes of `bytes` in opposite order, each with its bits in opposite
/// order.
pub fn mirror_bytes(bytes: &[u8]) -> (rev: Vec<u8>)
    ensures
        is_mirror(bytes@, rev@),
{
    let n: usize = bytes.len();
    let mut rev: Vec<u8> = Vec::with_capacity(n);
    let mut j: usize = 0;
    while j < n
        invariant
            n == bytes@.len(),
            j <= n,
            rev@.len() == j,
            forall|i: int, k: int|
                0 <= i < j && 0 <= k < 8 ==> #[trigger] byte_bit(rev@[i], k) == byte_bit(
                    bytes@[n - 1 - i],
                    7 - k,
                ),
        decreases n - j,
    {
        let r: u8 = reverse_byte(bytes[n - 1 - j]);
        rev.push(r);
        j += 1;
    }
    rev
}

/// Six bits spell the number whose length field they are.
pub proof fn lemma_length_field_value(len: u8)
    requires
        len < 64,
    ensures
        length_bits(len).len() == 6,
        be_value(length_bits(len)) == len,
{
    let bits = length_bits(len);
    let all = bytes_to_bits(seq![len]);
    assert(bits.len() == 6);
    assert forall|k: int| 0 <= k < 6 implies bits[k] == byte_bit(len, k + 2) by {
        assert(bits[k] == all[k + 2]);
        assert((k + 2) / 8 == 0);
    }
    let h5 = bits.drop_last();
    let h4 = h5.drop_last();
    let h3 = h4.drop_last();
    let h2 = h3.drop_last();
    let h1 = h2.drop_last();
    let h0 = h1.drop_last();
    assert(h0.len() == 0);
    assert(be_value(h0) == 0);
    assert(be_value(h1) == 2 * be_value(h0) + if bits[0] { 1nat } else { 0nat });
    assert(be_value(h2) == 2 * be_value(h1) + if bits[1] { 1nat } else { 0nat });
    assert(be_value(h3) == 2 * be_value(h2) + if bits[2] { 1nat } else { 0nat });
    assert(be_value(h4) == 2 * be_value(h3) + if bits[3] { 1nat } else { 0nat });
    assert(be_value(h5) == 2 * be_value(h4) + if bits[4] { 1nat } else { 0nat });
    assert(be_value(bits) == 2 * be_value(h5) + if bits[5] { 1nat } else { 0nat });
    assert(len == (if len & 0x20u8 != 0 { 32u8 } else { 0u8 }) + (if len & 0x10u8 != 0 { 16u8 } else { 0u8 })
        + (if len & 0x08u8 != 0 { 8u8 } else { 0u8 }) + (if len & 0x04u8 != 0 { 4u8 } else { 0u8 })
        + (if len & 0x02u8 != 0 { 2u8 } else { 0u8 }) + (if len & 0x01u8 != 0 { 1u8 } else { 0u8 }))
        by (bit_vector)
        requires
            len < 64,
    ;
}

/// Each of the low six bits of a sum of six placed bits is the bit that was
/// placed there.
proof fn lemma_six_from_sum(x: u8, m0: u8, m1: u8, m2: u8, m3: u8, m4: u8, m5: u8)
    by (bit_vector)
    requires
        m0 == 0 || m0 == 0x20,
        m1 == 0 || m1 == 0x10,
        m2 == 0 || m2 == 0x08,
        m3 == 0 || m3 == 0x04,
        m4 == 0 || m4 == 0x02,
        m5 == 0 || m5 == 0x01,
        x == m0 + m1 + m2 + m3 + m4 + m5,
    ensures
        (x & 0x20 != 0) == (m0 != 0),
        (x & 0x10 != 0) == (m1 != 0),
        (x & 0x08 != 0) == (m2 != 0),
        (x & 0x04 != 0) == (m3 != 0),
        (x & 0x02 != 0) == (m4 != 0),
        (x & 0x01 != 0) == (m5 != 0),
{
}

/// Six bits are the length field of the number they spell.
pub proof fn lemma_length_field_of_value(bits: Seq<bool>)
    requires
        bits.len() == 6,
    ensures
        be_value(bits) < 64,
        bits == length_bits(be_value(bits) as u8),
{
    let h5 = bits.drop_last();
    let h4 = h5.drop_last();
    let h3 = h4.drop_last();
    let h2 = h3.drop_last();
    let h1 = h2.drop_last();
    let h0 = h1.drop_last();
    assert(h0.len() == 0);
    assert(be_value(h0) == 0);
    assert(be_value(h1) == 2 * be_value(h0) + if bits[0] { 1nat } else { 0nat });
    assert(be_value(h2) == 2 * be_value(h1) + if bits[1] { 1nat } else { 0nat });
    assert(be_value(h3) == 2 * be_value(h2) + if bits[2] { 1nat } else { 0nat });
    assert(be_value(h4) == 2 * be_value(h3) + if bits[3] { 1nat } else { 0nat });
    assert(be_value(h5) == 2 * be_value(h4) + if bits[4] { 1nat } else { 0nat });
    assert(be_value(bits) == 2 * be_value(h5) + if bits[5] { 1nat } else { 0nat });
    let m0: u8 = if bits[0] { 0x20 } else { 0 };
    let m1: u8 = if bits[1] { 0x10 } else { 0 };
    let m2: u8 = if bits[2] { 0x08 } else { 0 };
    let m3: u8 = if bits[3] { 0x04 } else { 0 };
    let m4: u8 = if bits[4] { 0x02 } else { 0 };
    let m5: u8 = if bits[5] { 0x01 } else { 0 };
    let value = be_value(bits) as u8;
    assert(value == m0 + m1 + m2 + m3 + m4 + m5);
    lemma_six_from_sum(value, m0, m1, m2, m3, m4, m5);
    let field = length_bits(value);
    let all = bytes_to_bits(seq![value]);
    assert(field.len() == 6);
    assert forall|k: int| 0 <= k < 6 implies field[k] == bits[k] by {
        assert(field[k] == all[k + 2]);
        assert((k + 2) / 8 == 0);
        assert(field[k] == byte_bit(value, k + 2));
    }
    assert(field =~= bits);
}

} // verus!
