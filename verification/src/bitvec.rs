//! The `bit_vec::BitVec` operations the deframer relies on, each with the
//! contract that the rest of the crate is proved against.

use vstd::prelude::*;
use bit_vec::BitVec;
use crate::bits::{bytes_to_bits, bits_to_bytes};

verus! {

/// `bit_vec::BitVec`, taken as it is: a value of it is known only by what
/// the functions below say of `bit_contents`.
#[verifier::external_type_specification]
#[verifier::external_body]
#[verifier::reject_recursive_types(B)]
pub struct ExBitVec<B>(bit_vec::BitVec<B>);

/// The bits that a `BitVec` holds, first to last.
pub uninterp spec fn bit_contents(v: BitVec) -> Seq<bool>;

/// `BitVec::with_capacity`: an empty vector with room for `capacity` bits.
#[verifier::external_body]
pub(crate) fn bitvec_with_capacity(capacity: usize) -> (v: BitVec)
    ensures
        bit_contents(v) == Seq::<bool>::empty(),
{
    BitVec::with_capacity(capacity)
}

/// `BitVec::from_bytes`: eight bits per byte, the most significant first.
/// It panics where the number of bits overflows `usize`.
#[verifier::external_body]
pub(crate) fn bitvec_from_bytes(bytes: &[u8]) -> (v: BitVec)
    requires
        bytes@.len() * 8 <= usize::MAX,
    ensures
        bit_contents(v) == bytes_to_bits(bytes@),
{
    BitVec::from_bytes(bytes)
}

/// `BitVec::to_bytes`: the first bit becomes the high-order bit of the first
/// byte; a last partial byte is filled with zero bits.
#[verifier::external_body]
pub(crate) fn bitvec_to_bytes(v: &BitVec) -> (bytes: Vec<u8>)
    ensures
        bytes@ == bits_to_bytes(bit_contents(*v)),
{
    v.to_bytes()
}

/// `BitVec::len`: the number of bits held.
#[verifier::external_body]
pub(crate) fn bitvec_len(v: &BitVec) -> (n: usize)
    ensures
        n == bit_contents(*v).len(),
{
    v.len()
}

/// `BitVec::get`: the bit at index `i`, or `None` past the end.
#[verifier::external_body]
pub(crate) fn bitvec_get(v: &BitVec, i: usize) -> (bit: Option<bool>)
    ensures
        bit == if i < bit_contents(*v).len() {
            Some(bit_contents(*v)[i as int])
        } else {
            None
        },
{
    v.get(i)
}

/// `BitVec::push`: appends `bit` after the last bit. It panics where the
/// length overflows `usize`.
#[verifier::external_body]
pub(crate) fn bitvec_push(v: &mut BitVec, bit: bool)
    requires
        bit_contents(*old(v)).len() < usize::MAX,
    ensures
        bit_contents(*final(v)) == bit_contents(*old(v)).push(bit),
{
    v.push(bit)
}

/// `BitVec::pop`: removes the last bit and returns it, or returns `None` and
/// changes nothing where there is none.
#[verifier::external_body]
pub(crate) fn bitvec_pop(v: &mut BitVec) -> (bit: Option<bool>)
    ensures
        bit_contents(*old(v)).len() == 0 ==> bit.is_none() && bit_contents(*final(v))
            == bit_contents(*old(v)),
        bit_contents(*old(v)).len() > 0 ==> bit == Some(bit_contents(*old(v)).last())
            && bit_contents(*final(v)) == bit_contents(*old(v)).drop_last(),
{
    v.pop()
}

/// `BitVec::grow` on a vector that holds no bit: it then holds `n` copies of
/// `value`. Nothing is said of a vector that holds bits already: there `grow`
/// takes the unused bits of the last word for zero, which they need not be
/// behind a `split_off`.
#[verifier::external_body]
pub(crate) fn bitvec_grow(v: &mut BitVec, n: usize, value: bool)
    requires
        bit_contents(*old(v)).len() == 0,
    ensures
        bit_contents(*final(v)) == Seq::new(n as nat, |i: int| value),
{
    v.grow(n, value)
}

/// `BitVec::truncate`: keeps the first `len` bits; no effect where there are
/// no more than `len`.
#[verifier::external_body]
pub(crate) fn bitvec_truncate(v: &mut BitVec, len: usize)
    ensures
        bit_contents(*final(v)) == if len < bit_contents(*old(v)).len() {
            bit_contents(*old(v)).take(len as int)
        } else {
            bit_contents(*old(v))
        },
{
    v.truncate(len)
}

/// `BitVec::split_off`: keeps the first `at` bits in place and returns the
/// rest. It panics where `at` is past the end.
#[verifier::external_body]
pub(crate) fn bitvec_split_off(v: &mut BitVec, at: usize) -> (tail: BitVec)
    requires
        at <= bit_contents(*old(v)).len(),
    ensures
        bit_contents(*final(v)) == bit_contents(*old(v)).take(at as int),
        bit_contents(tail) == bit_contents(*old(v)).skip(at as int),
{
    v.split_off(at)
}

/// `BitVec::clone`: a vector holding the same bits.
#[verifier::external_body]
pub(crate) fn bitvec_clone(v: &BitVec) -> (copy: BitVec)
    ensures
        bit_contents(copy) == bit_contents(*v),
{
    v.clone()
}

} // verus!
