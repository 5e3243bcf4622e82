//! The wire layout of one channel.

use vstd::prelude::*;
use bit_vec::BitVec;
use crate::bits::{byte_bit, bytes_to_bits, length_bits, mirror_bytes, lemma_mirror_bits, reverse_byte};
use crate::bitvec::{bit_contents, bitvec_clone, bitvec_from_bytes, bitvec_truncate, bitvec_with_capacity};
use crate::checksum::{CRC_INIT_FIXED, CRC_INIT_SHOCKBURST};

verus! {

/// What a configuration says, as plain values. `address_prefix` is in the
/// order the bits are sent.
pub struct ConfigView {
    pub channel: u8,
    pub address_len: nat,
    pub address_prefix: Seq<bool>,
    pub payload_len: Option<nat>,
    pub shockburst: bool,
}

impl ConfigView {
    /// The ranges that a configuration keeps: channel 0 to 125, an address of
    /// 3 to 5 bytes, a payload of at most 32 bytes, and a known payload length
    /// unless the layout is Enhanced ShockBurst.
    pub open spec fn wf(self) -> bool {
        &&& self.channel <= 125
        &&& 3 <= self.address_len <= 5
        &&& self.payload_len matches Some(p) ==> p <= 32
        &&& !self.shockburst ==> self.payload_len.is_some()
    }

    /// Zero bits put before the address in the receive buffer: seven for
    /// Enhanced ShockBurst, whose control field has nine bits, else none.
    pub open spec fn padding_bits(self) -> nat {
        if self.shockburst {
            7
        } else {
            0
        }
    }

    /// Bits of the packet control field: nine for Enhanced ShockBurst.
    pub open spec fn header_bits(self) -> nat {
        if self.shockburst {
            9
        } else {
            0
        }
    }

    /// The most bytes a packet takes in the receive buffer.
    pub open spec fn max_frame_bytes(self) -> nat {
        self.address_len + (if self.shockburst { 2nat } else { 0nat }) + (match self.payload_len {
            Some(p) => p,
            None => 32nat,
        }) + 2
    }

    /// Length of the receive buffer once the address is complete.
    pub open spec fn address_end(self) -> nat {
        self.padding_bits() + 8 * self.address_len
    }

    /// Length of the receive buffer once the control field is complete.
    pub open spec fn header_end(self) -> nat {
        self.address_end() + self.header_bits()
    }

    /// Length of the receive buffer once a payload of `len` bytes is complete.
    pub open spec fn payload_end(self, len: nat) -> nat {
        self.header_end() + 8 * len
    }

    /// The length bits that a control field must show, in the order they are
    /// sent; empty where the payload length is not fixed.
    pub open spec fn length_field(self) -> Seq<bool> {
        match self.payload_len {
            Some(p) => length_bits(p as u8),
            None => Seq::empty(),
        }
    }

    /// Start value of the CRC register.
    pub open spec fn crc_init(self) -> u16 {
        if self.shockburst {
            CRC_INIT_SHOCKBURST
        } else {
            CRC_INIT_FIXED
        }
    }
}

/// Immutable description of a channel's wire layout.
#[derive(Debug)]
pub struct NrfConfig {
    channel: u8,
    address_len: usize,
    // bits of the known start of the address, last sent bit first
    address_prefix: BitVec,
    payload_len: Option<usize>,
    shockburst: bool,
}

impl View for NrfConfig {
    type V = ConfigView;

    closed spec fn view(&self) -> ConfigView {
        ConfigView {
            channel: self.channel,
            address_len: self.address_len as nat,
            address_prefix: bit_contents(self.address_prefix).reverse(),
            payload_len: match self.payload_len {
                Some(p) => Some(p as nat),
                None => None,
            },
            shockburst: self.shockburst,
        }
    }
}

impl Clone for NrfConfig {
    fn clone(&self) -> (copy: Self)
        ensures
            copy@ == self@,
    {
        proof {
            use_type_invariant(self);
        }
        NrfConfig {
            channel: self.channel,
            address_len: self.address_len,
            address_prefix: bitvec_clone(&self.address_prefix),
            payload_len: self.payload_len,
            shockburst: self.shockburst,
        }
    }
}

impl NrfConfig {
    /// Every configuration keeps the ranges of `ConfigView::wf`.
    #[verifier::type_invariant]
    pub open spec fn valid(self) -> bool {
        self@.wf()
    }

    /// Layout without a control field: every packet carries `payload_len`
    /// bytes. `address_prefix` holds the known first bytes of the address, in
    /// the order they are sent.
    pub fn fixed_length(
        channel: u8,
        address_len: usize,
        payload_len: usize,
        address_prefix: &[u8],
    ) -> (config: Self)
        requires
            channel <= 125,
            3 <= address_len <= 5,
            payload_len <= 32,
            address_prefix@.len() * 8 <= usize::MAX,
        ensures
            config@ == (ConfigView {
                channel,
                address_len: address_len as nat,
                address_prefix: bytes_to_bits(address_prefix@),
                payload_len: Some(payload_len as nat),
                shockburst: false,
            }),
    {
        let reversed_address_prefix: Vec<u8> = mirror_bytes(address_prefix);
        let stack = bitvec_from_bytes(reversed_address_prefix.as_slice());
        proof {
            lemma_mirror_bits(address_prefix@, reversed_address_prefix@);
        }
        NrfConfig {
            channel,
            address_len,
            address_prefix: stack,
            payload_len: Some(payload_len),
            shockburst: false,
        }
    }

    /// Enhanced ShockBurst layout: a 9-bit control field follows the address.
    /// With `payload_len` given, only packets of that length are taken; without
    /// it the length is read from the control field.
    pub fn shockburst(
        channel: u8,
        address_len: usize,
        payload_len: Option<usize>,
        address_prefix: &[u8],
    ) -> (config: Self)
        requires
            channel <= 125,
            3 <= address_len <= 5,
            payload_len matches Some(p) ==> p <= 32,
            address_prefix@.len() * 8 <= usize::MAX,
        ensures
            config@ == (ConfigView {
                channel,
                address_len: address_len as nat,
                address_prefix: bytes_to_bits(address_prefix@),
                payload_len: match payload_len {
                    Some(p) => Some(p as nat),
                    None => None,
                },
                shockburst: true,
            }),
    {
        let reversed_address_prefix: Vec<u8> = mirror_bytes(address_prefix);
        let stack = bitvec_from_bytes(reversed_address_prefix.as_slice());
        proof {
            lemma_mirror_bits(address_prefix@, reversed_address_prefix@);
        }
        NrfConfig {
            channel,
            address_len,
            address_prefix: stack,
            payload_len,
            shockburst: true,
        }
    }

    /// The channel number stamped into every frame.
    pub fn channel(&self) -> (channel: u8)
        ensures
            channel == self@.channel,
    {
        self.channel
    }

    /// The address size in bytes.
    pub fn address_len(&self) -> (len: usize)
        ensures
            len == self@.address_len,
    {
        self.address_len
    }

    /// The fixed payload size in bytes, where there is one.
    pub fn payload_len(&self) -> (len: Option<usize>)
        ensures
            self@.payload_len == match len {
                Some(p) => Some(p as nat),
                None => None,
            },
    {
        self.payload_len
    }

    /// Whether the layout is Enhanced ShockBurst.
    pub fn is_shockburst(&self) -> (esb: bool)
        ensures
            esb == self@.shockburst,
    {
        self.shockburst
    }

    /// The known start of the address as a stack: popping it gives the bits
    /// in the order they are sent.
    pub fn address_prefix_rev(&self) -> (stack: BitVec)
        ensures
            bit_contents(stack).reverse() == self@.address_prefix,
    {
        bitvec_clone(&self.address_prefix)
    }

    /// Start value of the CRC register for this layout.
    pub fn crc_init(&self) -> (init: u16)
        ensures
            init == self@.crc_init(),
    {
        if self.shockburst {
            CRC_INIT_SHOCKBURST
        } else {
            CRC_INIT_FIXED
        }
    }

    /// The most bytes a packet takes in the receive buffer; the buffer is
    /// allocated once at this size.
    pub fn max_length_bytes(&self) -> (n: usize)
        ensures
            n == self@.max_frame_bytes(),
    {
        proof {
            use_type_invariant(self);
        }
        let crc_len: usize = 2;
        let payload_len: usize = match self.payload_len {
            Some(p) => p,
            None => 32,
        };
        let header_len: usize = if self.shockburst {
            2
        } else {
            0
        };
        self.address_len + header_len + payload_len + crc_len
    }

    /// Zero bits put before the address so that a packet with a 9-bit control
    /// field ends on a byte: seven for Enhanced ShockBurst, else none.
    pub fn padding_length_bits(&self) -> (n: usize)
        ensures
            n == self@.padding_bits(),
    {
        if self.shockburst {
            7
        } else {
            0
        }
    }

    /// Bits of the control field: nine for Enhanced ShockBurst, else none.
    pub fn header_length_bits(&self) -> (n: usize)
        ensures
            n == self@.header_bits(),
    {
        if self.shockburst {
            9
        } else {
            0
        }
    }

    /// The length bits that a control field must show, as a stack: popping it
    /// gives them in the order they are sent. Empty where the payload length is
    /// not fixed.
    pub fn length_header_bits_rev(&self) -> (stack: BitVec)
        ensures
            bit_contents(stack).reverse() == self@.length_field(),
    {
        proof {
            use_type_invariant(self);
        }
        match self.payload_len {
            None => {
                let stack = bitvec_with_capacity(0);
                assert(bit_contents(stack).reverse() =~= Seq::<bool>::empty());
                stack
            },
            Some(len) => {
                let field: u8 = len as u8;
                let mirrored: [u8; 1] = [reverse_byte(field)];
                let mut stack = bitvec_from_bytes(mirrored.as_slice());
                bitvec_truncate(&mut stack, 6);
                proof {
                    let all = bit_contents(stack);
                    let want = length_bits(field);
                    assert(all.reverse().len() == want.len());
                    assert forall|i: int| 0 <= i < 6 implies all.reverse()[i] == want[i] by {
                        assert((5 - i) / 8 == 0);
                        assert((i + 2) / 8 == 0);
                        assert(byte_bit(mirrored@[0], 5 - i) == byte_bit(field, 7 - (5 - i)));
                    }
                    assert(all.reverse() =~= want);
                }
                stack
            },
        }
    }
}

} // verus!
