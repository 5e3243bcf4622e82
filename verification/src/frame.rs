//! Frames and their encoding for the air.

use vstd::prelude::*;
use bit_vec::BitVec;
use crate::bits::{
    bits_to_bytes, bytes_to_bits, length_bits, zeros, lemma_bits_of_concat, lemma_pack_unpack,
};
use crate::bitvec::{
    bit_contents, bitvec_from_bytes, bitvec_get, bitvec_grow, bitvec_len, bitvec_push,
    bitvec_to_bytes, bitvec_with_capacity,
};
use crate::checksum::{
    crc16, crc16_checksum, crc_bits, crc_trailer, CRC_INIT_FIXED, CRC_INIT_SHOCKBURST,
};
use crate::text::{decimal, hex_text};

verus! {

/// A frame as plain values.
pub struct FrameView {
    pub channel: u8,
    pub address: Seq<u8>,
    pub payload: Seq<u8>,
}

/// A received packet: the channel it came in on, its address and its payload.
#[derive(Debug, PartialEq, Eq)]
pub struct NrfFrame {
    pub channel: u8,
    pub address: Vec<u8>,
    pub payload: Vec<u8>,
}

impl View for NrfFrame {
    type V = FrameView;

    open spec fn view(&self) -> FrameView {
        FrameView { channel: self.channel, address: self.address@, payload: self.payload@ }
    }
}

impl Clone for NrfFrame {
    fn clone(&self) -> (copy: Self)
        ensures
            copy@ == self@,
    {
        NrfFrame {
            channel: self.channel,
            address: self.address.clone(),
            payload: self.payload.clone(),
        }
    }
}

impl Default for NrfFrame {
    fn default() -> (frame: Self)
        ensures
            frame@ == (FrameView { channel: 0, address: Seq::empty(), payload: Seq::empty() }),
    {
        NrfFrame { channel: 0, address: Vec::new(), payload: Vec::new() }
    }
}

/// `channel` in decimal, filled up with spaces on the left to three
/// characters.
pub open spec fn channel_text(channel: u8) -> Seq<char> {
    let number = decimal(channel as nat);
    Seq::new((3 - number.len()) as nat, |i: int| ' ') + number
}

/// `hex::encode`: the bytes as lower-case hexadecimal digits, two per byte.
#[verifier::external_body]
fn hex_encode(bytes: &[u8]) -> (text: String)
    ensures
        text@ == hex_text(bytes@),
{
    hex::encode(bytes)
}

/// `format!` with a number of width three and two strings, a space between
/// each: the number is written in decimal and filled up with spaces on the
/// left.
#[verifier::external_body]
fn format_line(channel: u8, address: &str, payload: &str) -> (text: String)
    ensures
        text@ == channel_text(channel) + seq![' '] + address@ + seq![' '] + payload@,
{
    format!("{:3} {} {}", channel, address, payload)
}

/// The views of a run of frames.
pub open spec fn frame_views(frames: Seq<NrfFrame>) -> Seq<FrameView> {
    frames.map_values(|f: NrfFrame| f@)
}

/// Eight alternating bits that start with `first` and so end on its
/// complement.
pub open spec fn preamble(first: bool) -> Seq<bool> {
    Seq::new(
        8,
        |i: int|
            if i % 2 == 0 {
                first
            } else {
                !first
            },
    )
}

/// `body` behind the preamble that fits its first bit.
pub open spec fn with_preamble(body: Seq<bool>) -> Seq<bool> {
    preamble(body[0]) + body
}

impl FrameView {
    /// The frame as a line of text: the channel, the address and the payload
    /// in hexadecimal.
    pub open spec fn text(self) -> Seq<char> {
        channel_text(self.channel) + seq![' '] + hex_text(self.address) + seq![' '] + hex_text(
            self.payload,
        )
    }

    /// The bits sent for this frame without a control field: preamble,
    /// address, payload, and the CRC-16 of address and payload.
    pub open spec fn fixed_encoding(self) -> Seq<bool> {
        with_preamble(
            bytes_to_bits(self.address) + bytes_to_bits(self.payload) + crc_bits(
                crc16(CRC_INIT_FIXED, self.address + self.payload),
            ),
        )
    }

    /// The six length bits of the control field: the payload length modulo 64.
    pub open spec fn length_field(self) -> Seq<bool> {
        length_bits((self.payload.len() % 256) as u8)
    }

    /// What the CRC of an Enhanced ShockBurst packet covers: seven zero bits,
    /// the address, the control field (length, then a zero packet id and a zero
    /// no-acknowledge flag) and the payload.
    pub open spec fn shockburst_buffer(self) -> Seq<bool> {
        zeros(7) + bytes_to_bits(self.address) + self.length_field() + zeros(3) + bytes_to_bits(
            self.payload,
        )
    }

    /// The bits sent for this frame in the Enhanced ShockBurst layout.
    pub open spec fn shockburst_encoding(self) -> Seq<bool> {
        let buffer = self.shockburst_buffer();
        with_preamble(
            (buffer + crc_bits(crc16(CRC_INIT_SHOCKBURST, bits_to_bytes(buffer)))).skip(7),
        )
    }
}

/// Appends to `dst` the bits of `src` from index `from` on.
fn extend_bits(dst: &mut BitVec, src: &BitVec, from: usize)
    requires
        from <= bit_contents(*src).len(),
        bit_contents(*old(dst)).len() + bit_contents(*src).len() <= usize::MAX,
    ensures
        bit_contents(*final(dst)) == bit_contents(*old(dst)) + bit_contents(*src).skip(from as int),
{
    let n: usize = bitvec_len(src);
    let mut i: usize = from;
    while i < n
        invariant
            n == bit_contents(*src).len(),
            from <= i <= n,
            bit_contents(*old(dst)).len() + n <= usize::MAX,
            bit_contents(*dst) == bit_contents(*old(dst)) + bit_contents(*src).subrange(
                from as int,
                i as int,
            ),
        decreases n - i,
    {
        let bit = bitvec_get(src, i);
        match bit {
            Some(b) => {
                bitvec_push(dst, b);
            },
            None => {},
        }
        i += 1;
    }
}

/// The bits of `body` behind the preamble that fits its first bit.
fn prepend_preamble(body: &BitVec) -> (stream: BitVec)
    requires
        0 < bit_contents(*body).len(),
        bit_contents(*body).len() + 8 <= usize::MAX,
    ensures
        bit_contents(stream) == with_preamble(bit_contents(*body)),
{
    let n: usize = bitvec_len(body);
    let first: bool = match bitvec_get(body, 0) {
        Some(b) => b,
        None => false,
    };
    let mut stream = bitvec_with_capacity(n + 8);
    let mut i: usize = 0;
    while i < 8
        invariant
            i <= 8,
            bit_contents(stream) == preamble(first).take(i as int),
        decreases 8 - i,
    {
        bitvec_push(&mut stream, if i % 2 == 0 { first } else { !first });
        i += 1;
    }
    assert(preamble(first).take(8) == preamble(first));
    extend_bits(&mut stream, body, 0);
    assert(bit_contents(*body).skip(0) == bit_contents(*body));
    stream
}

impl NrfFrame {
    /// The frame as a line of text: the channel in decimal, right-aligned in
    /// three characters, then the address and the payload in hexadecimal.
    pub fn to_string(&self) -> (text: String)
        ensures
            text@ == self@.text(),
    {
        let address = hex_encode(self.address.as_slice());
        let payload = hex_encode(self.payload.as_slice());
        format_line(self.channel, address.as_str(), payload.as_str())
    }

    /// The bits sent for this frame without a control field.
    pub fn encode_fixed(&self) -> (stream: BitVec)
        requires
            (self.address@.len() + self.payload@.len() + 3) * 8 <= usize::MAX,
        ensures
            bit_contents(stream) == self@.fixed_encoding(),
    {
        let mut bits = bitvec_from_bytes(self.address.as_slice());
        let payload_bits = bitvec_from_bytes(self.payload.as_slice());
        extend_bits(&mut bits, &payload_bits, 0);
        let covered: Vec<u8> = bitvec_to_bytes(&bits);
        let crc: u16 = crc16_checksum(CRC_INIT_FIXED, covered.as_slice());
        let trailer: [u8; 2] = crc_trailer(crc);
        let crc_part = bitvec_from_bytes(trailer.as_slice());
        proof {
            assert(bit_contents(payload_bits).skip(0) == bit_contents(payload_bits));
            lemma_bits_of_concat(self.address@, self.payload@);
            lemma_pack_unpack(self.address@ + self.payload@);
        }
        extend_bits(&mut bits, &crc_part, 0);
        assert(bit_contents(crc_part).skip(0) == bit_contents(crc_part));
        prepend_preamble(&bits)
    }

    /// The bits sent for this frame in the Enhanced ShockBurst layout, with
    /// packet id and no-acknowledge flag zero.
    pub fn encode_dynamic(&self) -> (stream: BitVec)
        requires
            (self.address@.len() + self.payload@.len() + 5) * 8 <= usize::MAX,
        ensures
            bit_contents(stream) == self@.shockburst_encoding(),
    {
        let mut bits = bitvec_with_capacity(0);
        bitvec_grow(&mut bits, 7, false);
        let address_bits = bitvec_from_bytes(self.address.as_slice());
        extend_bits(&mut bits, &address_bits, 0);
        let field: [u8; 1] = [(self.payload.len() % 256) as u8];
        let field_bits = bitvec_from_bytes(field.as_slice());
        extend_bits(&mut bits, &field_bits, 2);
        // packet id and no-acknowledge flag
        bitvec_push(&mut bits, false);
        bitvec_push(&mut bits, false);
        bitvec_push(&mut bits, false);
        let payload_bits = bitvec_from_bytes(self.payload.as_slice());
        extend_bits(&mut bits, &payload_bits, 0);
        proof {
            assert(bit_contents(address_bits).skip(0) == bit_contents(address_bits));
            assert(bit_contents(payload_bits).skip(0) == bit_contents(payload_bits));
            assert(field@ == seq![(self.payload@.len() % 256) as u8]);
            assert(bit_contents(bits) == self@.shockburst_buffer());
        }
        let covered: Vec<u8> = bitvec_to_bytes(&bits);
        let crc: u16 = crc16_checksum(CRC_INIT_SHOCKBURST, covered.as_slice());
        let trailer: [u8; 2] = crc_trailer(crc);
        let crc_part = bitvec_from_bytes(trailer.as_slice());
        proof {
            assert(bit_contents(crc_part).skip(0) == bit_contents(crc_part));
        }
        let mut body = bitvec_with_capacity(0);
        extend_bits(&mut body, &bits, 7);
        extend_bits(&mut body, &crc_part, 0);
        proof {
            let buffer = self@.shockburst_buffer();
            let tail = bit_contents(crc_part);
            assert(bit_contents(body) == (buffer + tail).skip(7));
        }
        prepend_preamble(&body)
    }
}

} // verus!
