//! The deframer: one bit in, the next state out, and now and then a frame.

use vstd::prelude::*;
use bit_vec::BitVec;
use crate::bits::{be_value, mirror_bytes, zeros, lemma_mirror_bits};
use crate::bitvec::{
    bit_contents, bitvec_clone, bitvec_get, bitvec_grow, bitvec_len, bitvec_pop, bitvec_push,
    bitvec_from_bytes, bitvec_split_off, bitvec_to_bytes, bitvec_truncate, bitvec_with_capacity,
};
use crate::checksum::{crc16_checksum, crc_bytes, crc_trailer};
use crate::config::NrfConfig;
use crate::frame::{frame_views, FrameView, NrfFrame};
use crate::invariants::{
    all_admissible, lemma_advance_ok, lemma_decode_concat, lemma_decode_held, lemma_decode_ok,
    lemma_decode_one,
};
use crate::model::{
    check_crc, decode, frame_of, mismatch, receive_address, receive_header, receive_payload, rest,
    rewound, settle, unpadded, DecoderView,
};

verus! {

/// State of the deframer for one channel. Each receive buffer starts with the
/// configuration's padding bits; each second `BitVec` of a variant is a stack
/// of the bits still to be matched, the next one on top.
#[derive(Debug)]
pub enum NrfDecoder {
    /// No bit seen yet.
    Empty,
    /// Synchronizing on the preamble: alternations counted, and the last bit.
    Sync(usize, bool),
    /// Matching and receiving the address: buffer, and prefix still to match.
    RecvAddr(BitVec, BitVec),
    /// Matching and receiving the control field: buffer, and length bits
    /// still to match.
    RecvHeader(BitVec, BitVec),
    /// Receiving the payload: buffer length at which it is complete, and
    /// buffer.
    RecvPayload(usize, BitVec),
    /// Matching the CRC: buffer, and CRC bits still to match.
    CheckCrc(BitVec, BitVec),
}

impl View for NrfDecoder {
    type V = DecoderView;

    open spec fn view(&self) -> DecoderView {
        match *self {
            NrfDecoder::Empty => DecoderView::Empty,
            NrfDecoder::Sync(count, last) => DecoderView::Sync { count: count as nat, last },
            NrfDecoder::RecvAddr(data, prefix) => DecoderView::RecvAddr {
                buffer: bit_contents(data),
                expected: bit_contents(prefix).reverse(),
            },
            NrfDecoder::RecvHeader(data, length) => DecoderView::RecvHeader {
                buffer: bit_contents(data),
                expected: bit_contents(length).reverse(),
            },
            NrfDecoder::RecvPayload(end, data) => DecoderView::RecvPayload {
                end: end as nat,
                buffer: bit_contents(data),
            },
            NrfDecoder::CheckCrc(data, crc) => DecoderView::CheckCrc {
                buffer: bit_contents(data),
                expected: bit_contents(crc).reverse(),
            },
        }
    }
}

impl Clone for NrfDecoder {
    fn clone(&self) -> (copy: Self)
        ensures
            copy@ == self@,
    {
        match self {
            NrfDecoder::Empty => NrfDecoder::Empty,
            NrfDecoder::Sync(count, last) => NrfDecoder::Sync(*count, *last),
            NrfDecoder::RecvAddr(data, prefix) => NrfDecoder::RecvAddr(
                bitvec_clone(data),
                bitvec_clone(prefix),
            ),
            NrfDecoder::RecvHeader(data, length) => NrfDecoder::RecvHeader(
                bitvec_clone(data),
                bitvec_clone(length),
            ),
            NrfDecoder::RecvPayload(end, data) => NrfDecoder::RecvPayload(
                *end,
                bitvec_clone(data),
            ),
            NrfDecoder::CheckCrc(data, crc) => NrfDecoder::CheckCrc(
                bitvec_clone(data),
                bitvec_clone(crc),
            ),
        }
    }
}

/// The top of a stack is the first bit of what it expects.
proof fn lemma_stack_top(stack: Seq<bool>, bit: bool)
    ensures
        mismatch(stack.reverse(), bit) == (stack.len() > 0 && stack.last() != bit),
        stack.len() > 0 ==> rest(stack.reverse()) == stack.drop_last().reverse(),
        stack.len() == 0 ==> rest(stack.reverse()) == stack.reverse(),
        stack.reverse().len() == stack.len(),
{
    if stack.len() > 0 {
        assert(stack.reverse().skip(1) =~= stack.drop_last().reverse());
    }
}

/// Adding no frame leaves the views as they were.
proof fn lemma_nothing_emitted(frames: Seq<NrfFrame>)
    ensures
        frame_views(frames) + Seq::<FrameView>::empty() == frame_views(frames),
{
    assert(frame_views(frames) + Seq::<FrameView>::empty() =~= frame_views(frames));
}

/// The number that the six bits of `data` from index `start` on spell, most
/// significant bit first.
fn read_length(data: &BitVec, start: usize) -> (len: usize)
    requires
        start + 6 <= bit_contents(*data).len(),
        start + 6 <= usize::MAX,
    ensures
        len == be_value(bit_contents(*data).subrange(start as int, start + 6)),
{
    let mut acc: usize = 0;
    let mut k: usize = 0;
    while k < 6
        invariant
            k <= 6,
            start + 6 <= bit_contents(*data).len(),
            start + 6 <= usize::MAX,
            acc == be_value(bit_contents(*data).subrange(start as int, start + k)),
            acc < 64,
            k < 6 ==> acc < 32,
            k < 5 ==> acc < 16,
            k < 4 ==> acc < 8,
            k < 3 ==> acc < 4,
            k < 2 ==> acc < 2,
            k < 1 ==> acc < 1,
        decreases 6 - k,
    {
        let bit = match bitvec_get(data, start + k) {
            Some(b) => b,
            None => false,
        };
        proof {
            let wider = bit_contents(*data).subrange(start as int, start + k + 1);
            assert(wider.drop_last() =~= bit_contents(*data).subrange(start as int, start + k));
            assert(wider.last() == bit);
        }
        acc = acc * 2 + if bit {
            1
        } else {
            0
        };
        k += 1;
    }
    acc
}

impl NrfDecoder {
    /// The state after `bit`. A frame that `bit` completes is appended to
    /// `out`; so are the frames found while the bits of a failed attempt are
    /// read again. Every frame appended is admissible under `config`.
    pub fn push_bit(self, config: &NrfConfig, out: &mut Vec<NrfFrame>, bit: bool) -> (next:
        NrfDecoder)
        requires
            self@.wf(config@),
        ensures
            next@.wf(config@),
            next@ == decode(config@, self@, seq![bit]).0,
            frame_views(final(out)@) == frame_views(old(out)@) + decode(
                config@,
                self@,
                seq![bit],
            ).1,
            all_admissible(config@, decode(config@, self@, seq![bit]).1),
        decreases self@.held(config@), 2nat,
    {
        proof {
            use_type_invariant(config);
            lemma_decode_ok(config@, self@, seq![bit]);
            lemma_decode_one(config@, self@, bit);
            lemma_nothing_emitted(old(out)@);
        }
        match self {
            NrfDecoder::Empty => NrfDecoder::Sync(1, bit),
            NrfDecoder::Sync(recv, prev) => {
                if prev != bit && recv < 8 {
                    // receiving preamble
                    NrfDecoder::Sync(recv + 1, bit)
                } else if prev != bit && recv == 8 {
                    // received preamble, this is the first bit of the address
                    let capacity: usize = config.max_length_bytes() * 8;
                    let mut buffer = bitvec_with_capacity(capacity);
                    bitvec_grow(&mut buffer, config.padding_length_bits(), false);
                    let prefix = config.address_prefix_rev();
                    proof {
                        assert(bit_contents(buffer) =~= zeros(config@.padding_bits()));
                        assert(config@.address_prefix.skip(0) =~= config@.address_prefix);
                    }
                    Self::receive_address(config, out, buffer, prefix, bit)
                } else {
                    // preamble mismatch, reset
                    NrfDecoder::Sync(1, bit)
                }
            },
            NrfDecoder::RecvAddr(data, prefix) => Self::receive_address(
                config,
                out,
                data,
                prefix,
                bit,
            ),
            NrfDecoder::RecvHeader(data, length) => Self::receive_header(
                config,
                out,
                data,
                length,
                bit,
            ),
            NrfDecoder::RecvPayload(message_len, data) => Self::receive_payload(
                config,
                out,
                message_len,
                data,
                bit,
            ),
            NrfDecoder::CheckCrc(data, crc) => Self::check_crc(config, out, data, crc, bit),
        }
    }

    /// Called when a check failed: gives up the first received bit as the
    /// start of an address and reads the bits behind it again, from the state
    /// in which that first bit has completed a preamble.
    fn drop_bit_and_resync(config: &NrfConfig, out: &mut Vec<NrfFrame>, data: BitVec) -> (next:
        NrfDecoder)
        requires
            config@.wf(),
            config@.padding_bits() < bit_contents(data).len(),
        ensures
            next@.wf(config@),
            next@ == decode(
                config@,
                rewound(config@, bit_contents(data)).0,
                rewound(config@, bit_contents(data)).1,
            ).0,
            frame_views(final(out)@) == frame_views(old(out)@) + decode(
                config@,
                rewound(config@, bit_contents(data)).0,
                rewound(config@, bit_contents(data)).1,
            ).1,
        decreases unpadded(config@, bit_contents(data)) - 1, 0nat,
    {
        let padding: usize = config.padding_length_bits();
        let n: usize = bitvec_len(&data);
        let first: bool = match bitvec_get(&data, padding) {
            Some(b) => b,
            None => false,
        };
        let ghost start = rewound(config@, bit_contents(data)).0;
        let ghost again = rewound(config@, bit_contents(data)).1;
        let mut state = NrfDecoder::Sync(8, first);
        let mut i: usize = padding + 1;
        proof {
            assert(again.take(0) =~= Seq::<bool>::empty());
            lemma_nothing_emitted(old(out)@);
        }
        while i < n
            invariant
                config@.wf(),
                n == bit_contents(data).len(),
                padding == config@.padding_bits(),
                padding < i <= n,
                start == rewound(config@, bit_contents(data)).0,
                again == rewound(config@, bit_contents(data)).1,
                state@.wf(config@),
                state@.held(config@) <= i - padding - 1,
                state@ == decode(config@, start, again.take(i - padding - 1)).0,
                frame_views(out@) == frame_views(old(out)@) + decode(
                    config@,
                    start,
                    again.take(i - padding - 1),
                ).1,
            decreases n - i,
        {
            let bit: bool = match bitvec_get(&data, i) {
                Some(b) => b,
                None => false,
            };
            proof {
                let done = again.take(i - padding - 1);
                assert(done + seq![bit] =~= again.take(i - padding));
                lemma_decode_concat(config@, start, done, seq![bit]);
                lemma_decode_held(config@, state@, seq![bit]);
                let before = decode(config@, start, done).1;
                let now = decode(config@, state@, seq![bit]).1;
                assert((frame_views(old(out)@) + before) + now =~= frame_views(old(out)@) + (before
                    + now));
            }
            state = state.push_bit(config, out, bit);
            i += 1;
        }
        proof {
            assert(again.take(n - padding - 1) =~= again);
        }
        state
    }

    /// One more address bit.
    fn receive_address(
        config: &NrfConfig,
        out: &mut Vec<NrfFrame>,
        data: BitVec,
        prefix: BitVec,
        bit: bool,
    ) -> (next: NrfDecoder)
        requires
            config@.wf(),
            (DecoderView::RecvAddr {
                buffer: bit_contents(data),
                expected: bit_contents(prefix).reverse(),
            }).wf(config@),
        ensures
            next@.wf(config@),
            next@ == settle(
                config@,
                receive_address(config@, bit_contents(data), bit_contents(prefix).reverse(), bit),
            ).0,
            frame_views(final(out)@) == frame_views(old(out)@) + settle(
                config@,
                receive_address(config@, bit_contents(data), bit_contents(prefix).reverse(), bit),
            ).1,
        decreases unpadded(config@, bit_contents(data)), 1nat,
    {
        let mut data = data;
        let mut prefix = prefix;
        proof {
            lemma_stack_top(bit_contents(prefix), bit);
            lemma_advance_ok(
                config@,
                DecoderView::RecvAddr {
                    buffer: bit_contents(data),
                    expected: bit_contents(prefix).reverse(),
                },
                bit,
            );
            lemma_nothing_emitted(old(out)@);
        }
        let address_len: usize = config.address_len();
        let padding: usize = config.padding_length_bits();
        bitvec_push(&mut data, bit);
        let differs: bool = match bitvec_pop(&mut prefix) {
            Some(b) => b != bit,
            None => false,
        };
        if differs {
            // invalid prefix
            Self::drop_bit_and_resync(config, out, data)
        } else if bitvec_len(&data) < address_len * 8 + padding {
            // insufficient length
            NrfDecoder::RecvAddr(data, prefix)
        } else {
            // fully received
            let shockburst: bool = config.is_shockburst();
            match config.payload_len() {
                Some(payload_len) => {
                    if !shockburst {
                        NrfDecoder::RecvPayload((address_len + payload_len) * 8, data)
                    } else {
                        NrfDecoder::RecvHeader(data, config.length_header_bits_rev())
                    }
                },
                None => NrfDecoder::RecvHeader(data, config.length_header_bits_rev()),
            }
        }
    }

    /// One more bit of the control field.
    fn receive_header(
        config: &NrfConfig,
        out: &mut Vec<NrfFrame>,
        data: BitVec,
        length: BitVec,
        bit: bool,
    ) -> (next: NrfDecoder)
        requires
            config@.wf(),
            (DecoderView::RecvHeader {
                buffer: bit_contents(data),
                expected: bit_contents(length).reverse(),
            }).wf(config@),
        ensures
            next@.wf(config@),
            next@ == settle(
                config@,
                receive_header(config@, bit_contents(data), bit_contents(length).reverse(), bit),
            ).0,
            frame_views(final(out)@) == frame_views(old(out)@) + settle(
                config@,
                receive_header(config@, bit_contents(data), bit_contents(length).reverse(), bit),
            ).1,
        decreases unpadded(config@, bit_contents(data)), 1nat,
    {
        let mut data = data;
        let mut length = length;
        proof {
            lemma_stack_top(bit_contents(length), bit);
            lemma_advance_ok(
                config@,
                DecoderView::RecvHeader {
                    buffer: bit_contents(data),
                    expected: bit_contents(length).reverse(),
                },
                bit,
            );
            lemma_nothing_emitted(old(out)@);
        }
        let address_len: usize = config.address_len();
        let padding: usize = config.padding_length_bits();
        bitvec_push(&mut data, bit);
        let differs: bool = match bitvec_pop(&mut length) {
            Some(b) => b != bit,
            None => false,
        };
        if differs {
            // invalid length
            Self::drop_bit_and_resync(config, out, data)
        } else if bitvec_len(&data) < (2 + address_len) * 8 {
            NrfDecoder::RecvHeader(data, length)
        } else {
            let payload_len: usize = read_length(&data, address_len * 8 + padding);
            if payload_len <= 32 {
                NrfDecoder::RecvPayload((address_len + payload_len + 2) * 8, data)
            } else {
                Self::drop_bit_and_resync(config, out, data)
            }
        }
    }

    /// One more payload bit.
    fn receive_payload(
        config: &NrfConfig,
        out: &mut Vec<NrfFrame>,
        message_len: usize,
        data: BitVec,
        bit: bool,
    ) -> (next: NrfDecoder)
        requires
            config@.wf(),
            (DecoderView::RecvPayload { end: message_len as nat, buffer: bit_contents(data) }).wf(
                config@,
            ),
        ensures
            next@.wf(config@),
            next@ == settle(
                config@,
                receive_payload(config@, message_len as nat, bit_contents(data), bit),
            ).0,
            frame_views(final(out)@) == frame_views(old(out)@) + settle(
                config@,
                receive_payload(config@, message_len as nat, bit_contents(data), bit),
            ).1,
    {
        let mut data = data;
        proof {
            lemma_advance_ok(
                config@,
                DecoderView::RecvPayload { end: message_len as nat, buffer: bit_contents(data) },
                bit,
            );
            lemma_nothing_emitted(old(out)@);
        }
        bitvec_push(&mut data, bit);
        if bitvec_len(&data) < message_len {
            NrfDecoder::RecvPayload(message_len, data)
        } else {
            let covered: Vec<u8> = bitvec_to_bytes(&data);
            let d: u16 = crc16_checksum(config.crc_init(), covered.as_slice());
            let trailer: [u8; 2] = crc_trailer(d);
            let mirrored: Vec<u8> = mirror_bytes(trailer.as_slice());
            let crc = bitvec_from_bytes(mirrored.as_slice());
            proof {
                lemma_mirror_bits(crc_bytes(d), mirrored@);
            }
            NrfDecoder::CheckCrc(data, crc)
        }
    }

    /// The frame in a buffer that ends with its sixteen CRC bits.
    fn take_frame(config: &NrfConfig, data: BitVec) -> (frame: NrfFrame)
        requires
            config@.wf(),
            config@.header_end() + 16 <= bit_contents(data).len(),
        ensures
            frame@ == frame_of(config@, bit_contents(data)),
    {
        let mut data = data;
        let ghost whole = bit_contents(data);
        let address_len: usize = config.address_len();
        let padding: usize = config.padding_length_bits();
        let header: usize = config.header_length_bits();
        let mut payload = bitvec_split_off(&mut data, padding + address_len * 8 + header);
        let mut address = bitvec_split_off(&mut data, padding);
        bitvec_truncate(&mut address, address_len * 8);  // drop the control field
        let payload_bits: usize = bitvec_len(&payload);
        bitvec_truncate(&mut payload, payload_bits - 16);  // drop the CRC
        proof {
            assert(bit_contents(address) =~= whole.subrange(
                config@.padding_bits() as int,
                config@.address_end() as int,
            ));
            assert(bit_contents(payload) =~= whole.subrange(
                config@.header_end() as int,
                whole.len() - 16,
            ));
        }
        NrfFrame {
            channel: config.channel(),
            address: bitvec_to_bytes(&address),
            payload: bitvec_to_bytes(&payload),
        }
    }

    /// One more CRC bit.
    fn check_crc(
        config: &NrfConfig,
        out: &mut Vec<NrfFrame>,
        data: BitVec,
        crc: BitVec,
        bit: bool,
    ) -> (next: NrfDecoder)
        requires
            config@.wf(),
            (DecoderView::CheckCrc {
                buffer: bit_contents(data),
                expected: bit_contents(crc).reverse(),
            }).wf(config@),
        ensures
            next@.wf(config@),
            next@ == settle(
                config@,
                check_crc(config@, bit_contents(data), bit_contents(crc).reverse(), bit),
            ).0,
            frame_views(final(out)@) == frame_views(old(out)@) + settle(
                config@,
                check_crc(config@, bit_contents(data), bit_contents(crc).reverse(), bit),
            ).1,
        decreases unpadded(config@, bit_contents(data)), 1nat,
    {
        let mut data = data;
        let mut crc = crc;
        proof {
            lemma_stack_top(bit_contents(crc), bit);
            lemma_advance_ok(
                config@,
                DecoderView::CheckCrc {
                    buffer: bit_contents(data),
                    expected: bit_contents(crc).reverse(),
                },
                bit,
            );
            lemma_nothing_emitted(old(out)@);
        }
        bitvec_push(&mut data, bit);
        let differs: bool = match bitvec_pop(&mut crc) {
            Some(b) => b != bit,
            None => false,
        };
        if differs {
            // invalid checksum
            Self::drop_bit_and_resync(config, out, data)
        } else if bitvec_len(&crc) > 0 {
            // checksum not fully received
            NrfDecoder::CheckCrc(data, crc)
        } else {
            // passed
            let frame = Self::take_frame(config, data);
            proof {
                assert(frame_views(out@.push(frame)) =~= frame_views(out@) + seq![frame@]);
            }
            out.push(frame);
            NrfDecoder::Empty
        }
    }
}

} // verus!
