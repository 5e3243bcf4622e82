//! The deframer as a mathematical machine: its states, what one bit does to
//! a state, and what a run of bits yields.

use vstd::prelude::*;
use crate::bits::{be_value, bits_to_bytes, bytes_to_bits, zeros};
use crate::checksum::{crc16, crc_bits};
use crate::config::ConfigView;
use crate::frame::FrameView;

verus! {

/// A state of the deframer. Every `buffer` starts with the configuration's
/// padding bits and then holds the bits received since the address began;
/// every `expected` holds the bits still to be matched, the next one first.
pub enum DecoderView {
    /// No bit seen yet.
    Empty,
    /// Counting the alternations of a preamble: `count` bits alternated, the
    /// last of them `last`.
    Sync { count: nat, last: bool },
    /// Receiving the address and matching the known prefix.
    RecvAddr { buffer: Seq<bool>, expected: Seq<bool> },
    /// Receiving the control field and matching the length, if it is fixed.
    RecvHeader { buffer: Seq<bool>, expected: Seq<bool> },
    /// Receiving the payload, which is complete when the buffer holds `end`
    /// bits.
    RecvPayload { end: nat, buffer: Seq<bool> },
    /// Matching the CRC bit by bit.
    CheckCrc { buffer: Seq<bool>, expected: Seq<bool> },
}

/// What one bit does to a state.
pub enum Step {
    /// The machine moves on, and may hand out a frame.
    Next(DecoderView, Option<FrameView>),
    /// A check failed with this buffer: the frame, if there is one, starts
    /// later than assumed.
    Rewind(Seq<bool>),
}

/// `bit` is not what `expected` asks for next.
pub open spec fn mismatch(expected: Seq<bool>, bit: bool) -> bool {
    expected.len() > 0 && expected[0] != bit
}

/// `expected` without its first bit, if it has one.
pub open spec fn rest(expected: Seq<bool>) -> Seq<bool> {
    if expected.len() > 0 {
        expected.skip(1)
    } else {
        expected
    }
}

/// The payload length that the control field in `buffer` announces.
pub open spec fn announced_length(cfg: ConfigView, buffer: Seq<bool>) -> nat {
    be_value(buffer.subrange(cfg.address_end() as int, cfg.address_end() as int + 6))
}

/// The frame held by a buffer that ends with its sixteen CRC bits.
pub open spec fn frame_of(cfg: ConfigView, buffer: Seq<bool>) -> FrameView {
    FrameView {
        channel: cfg.channel,
        address: bits_to_bytes(
            buffer.subrange(cfg.padding_bits() as int, cfg.address_end() as int),
        ),
        payload: bits_to_bytes(buffer.subrange(cfg.header_end() as int, buffer.len() - 16)),
    }
}

/// One more address bit.
pub open spec fn receive_address(
    cfg: ConfigView,
    buffer: Seq<bool>,
    expected: Seq<bool>,
    bit: bool,
) -> Step {
    let data = buffer.push(bit);
    if mismatch(expected, bit) {
        Step::Rewind(data)
    } else if data.len() < cfg.address_end() {
        Step::Next(DecoderView::RecvAddr { buffer: data, expected: rest(expected) }, None)
    } else if !cfg.shockburst && cfg.payload_len.is_some() {
        Step::Next(
            DecoderView::RecvPayload {
                end: cfg.payload_end(cfg.payload_len.unwrap()),
                buffer: data,
            },
            None,
        )
    } else {
        Step::Next(DecoderView::RecvHeader { buffer: data, expected: cfg.length_field() }, None)
    }
}

/// One more bit of the control field. Of its nine bits only the six length
/// bits are looked at.
pub open spec fn receive_header(
    cfg: ConfigView,
    buffer: Seq<bool>,
    expected: Seq<bool>,
    bit: bool,
) -> Step {
    let data = buffer.push(bit);
    if mismatch(expected, bit) {
        Step::Rewind(data)
    } else if data.len() < cfg.header_end() {
        Step::Next(DecoderView::RecvHeader { buffer: data, expected: rest(expected) }, None)
    } else if announced_length(cfg, data) <= 32 {
        Step::Next(
            DecoderView::RecvPayload {
                end: cfg.payload_end(announced_length(cfg, data)),
                buffer: data,
            },
            None,
        )
    } else {
        Step::Rewind(data)
    }
}

/// One more payload bit. When the buffer has reached `end`, the CRC of the
/// buffer, packed into bytes, is what the next sixteen bits must show.
pub open spec fn receive_payload(cfg: ConfigView, end: nat, buffer: Seq<bool>, bit: bool) -> Step {
    let data = buffer.push(bit);
    if data.len() < end {
        Step::Next(DecoderView::RecvPayload { end, buffer: data }, None)
    } else {
        Step::Next(
            DecoderView::CheckCrc {
                buffer: data,
                expected: crc_bits(crc16(cfg.crc_init(), bits_to_bytes(data))),
            },
            None,
        )
    }
}

/// One more CRC bit. The sixteenth matching bit hands out the frame.
pub open spec fn check_crc(
    cfg: ConfigView,
    buffer: Seq<bool>,
    expected: Seq<bool>,
    bit: bool,
) -> Step {
    let data = buffer.push(bit);
    if mismatch(expected, bit) {
        Step::Rewind(data)
    } else if rest(expected).len() > 0 {
        Step::Next(DecoderView::CheckCrc { buffer: data, expected: rest(expected) }, None)
    } else {
        Step::Next(DecoderView::Empty, Some(frame_of(cfg, data)))
    }
}

/// What `bit` does to state `s`.
pub open spec fn advance(cfg: ConfigView, s: DecoderView, bit: bool) -> Step {
    match s {
        DecoderView::Empty => Step::Next(DecoderView::Sync { count: 1, last: bit }, None),
        DecoderView::Sync { count, last } => {
            if last != bit && count < 8 {
                Step::Next(DecoderView::Sync { count: count + 1, last: bit }, None)
            } else if last != bit && count == 8 {
                receive_address(cfg, zeros(cfg.padding_bits()), cfg.address_prefix, bit)
            } else {
                Step::Next(DecoderView::Sync { count: 1, last: bit }, None)
            }
        },
        DecoderView::RecvAddr { buffer, expected } => receive_address(cfg, buffer, expected, bit),
        DecoderView::RecvHeader { buffer, expected } => receive_header(cfg, buffer, expected, bit),
        DecoderView::RecvPayload { end, buffer } => receive_payload(cfg, end, buffer, bit),
        DecoderView::CheckCrc { buffer, expected } => check_crc(cfg, buffer, expected, bit),
    }
}

impl DecoderView {
    /// The bits received since the address began: those that a rewind would
    /// bring back.
    pub open spec fn held(self, cfg: ConfigView) -> nat {
        match self {
            DecoderView::Empty => 0,
            DecoderView::Sync { .. } => 0,
            DecoderView::RecvAddr { buffer, .. } => unpadded(cfg, buffer),
            DecoderView::RecvHeader { buffer, .. } => unpadded(cfg, buffer),
            DecoderView::RecvPayload { buffer, .. } => unpadded(cfg, buffer),
            DecoderView::CheckCrc { buffer, .. } => unpadded(cfg, buffer),
        }
    }
}

/// The number of bits of `buffer` behind the padding.
pub open spec fn unpadded(cfg: ConfigView, buffer: Seq<bool>) -> nat {
    if buffer.len() >= cfg.padding_bits() {
        (buffer.len() - cfg.padding_bits()) as nat
    } else {
        0
    }
}

/// The state that a failed check with `buffer` leaves, and the bits to be
/// read again from it. The first bit behind the padding is given up as the
/// start of an address: it now counts as the eighth bit of the preamble, just
/// as if the machine had stood in `Sync { count: 7, .. }` with the complement
/// of that bit and then read it. The bits behind it are read again.
pub open spec fn rewound(cfg: ConfigView, buffer: Seq<bool>) -> (DecoderView, Seq<bool>) {
    let pad = cfg.padding_bits() as int;
    if buffer.len() > pad {
        (DecoderView::Sync { count: 8, last: buffer[pad] }, buffer.skip(pad + 1))
    } else {
        (DecoderView::Empty, Seq::empty())
    }
}

/// One bit adds at most one to what a state holds, and a rewind hands back
/// one bit less than was held and read.
pub proof fn lemma_advance_held(cfg: ConfigView, s: DecoderView, bit: bool)
    ensures
        advance(cfg, s, bit) matches Step::Next(next, _) ==> next.held(cfg) <= s.held(cfg) + 1,
        advance(cfg, s, bit) matches Step::Rewind(buffer) ==> rewound(cfg, buffer).0.held(cfg)
            == 0 && rewound(cfg, buffer).1.len() <= s.held(cfg),
{
}

/// The frames that one step hands out: one or none.
pub open spec fn emitted(frame: Option<FrameView>) -> Seq<FrameView> {
    match frame {
        Some(f) => seq![f],
        None => Seq::empty(),
    }
}

/// The state after the bits of `input`, and the frames handed out on the
/// way. After a failed check the bits behind the first one of the failed
/// attempt are read again, before the rest of `input`.
pub open spec fn decode(cfg: ConfigView, s: DecoderView, input: Seq<bool>) -> (
    DecoderView,
    Seq<FrameView>,
)
    decreases s.held(cfg) + input.len(), input.len(),
{
    if input.len() == 0 {
        (s, Seq::empty())
    } else {
        proof {
            lemma_advance_held(cfg, s, input[0]);
        }
        match advance(cfg, s, input[0]) {
            Step::Next(next, frame) => {
                let (last, frames) = decode(cfg, next, input.skip(1));
                (last, emitted(frame) + frames)
            },
            Step::Rewind(buffer) => decode(
                cfg,
                rewound(cfg, buffer).0,
                rewound(cfg, buffer).1 + input.skip(1),
            ),
        }
    }
}

/// What a step leads to with no further input: the next state and the frame
/// of the step, or whatever reading the rewound bits again gives.
pub open spec fn settle(cfg: ConfigView, step: Step) -> (DecoderView, Seq<FrameView>) {
    match step {
        Step::Next(next, frame) => (next, emitted(frame)),
        Step::Rewind(buffer) => decode(cfg, rewound(cfg, buffer).0, rewound(cfg, buffer).1),
    }
}

/// `buffer` starts with the padding bits, all zero.
pub open spec fn padded(cfg: ConfigView, buffer: Seq<bool>) -> bool {
    &&& cfg.padding_bits() <= buffer.len()
    &&& forall|i: int| 0 <= i < cfg.padding_bits() ==> !#[trigger] buffer[i]
}

/// The address bits in `buffer` agree with the known prefix as far as both
/// reach.
pub open spec fn prefix_kept(cfg: ConfigView, buffer: Seq<bool>) -> bool {
    forall|i: int|
        0 <= i < cfg.address_prefix.len() && i < 8 * cfg.address_len && cfg.padding_bits() + i
            < buffer.len() ==> buffer[cfg.padding_bits() + i] == #[trigger] cfg.address_prefix[i]
}

/// The length bits in `buffer` agree with the fixed length as far as both
/// reach.
pub open spec fn length_kept(cfg: ConfigView, buffer: Seq<bool>) -> bool {
    forall|i: int|
        0 <= i < cfg.length_field().len() && cfg.address_end() + i < buffer.len()
            ==> buffer[cfg.address_end() + i] == #[trigger] cfg.length_field()[i]
}

/// What is left of `all` once `seen` bits were matched against it.
pub open spec fn still_expected(all: Seq<bool>, seen: int) -> Seq<bool> {
    if 0 <= seen <= all.len() {
        all.skip(seen)
    } else {
        Seq::empty()
    }
}

/// The bits of `address` start with `prefix`, as far as both reach.
pub open spec fn starts_with(address: Seq<u8>, prefix: Seq<bool>) -> bool {
    forall|i: int|
        0 <= i < prefix.len() && i < 8 * address.len() ==> bytes_to_bits(address)[i]
            == #[trigger] prefix[i]
}

/// A frame that the deframer may hand out under `cfg`: stamped with the
/// channel, with an address of the configured size that starts with the known
/// prefix, and with a payload of 1 to 32 bytes, of the configured size where
/// one is configured.
pub open spec fn admissible(cfg: ConfigView, f: FrameView) -> bool {
    &&& f.channel == cfg.channel
    &&& f.address.len() == cfg.address_len
    &&& starts_with(f.address, cfg.address_prefix)
    &&& 1 <= f.payload.len() <= 32
    &&& (cfg.payload_len matches Some(p) && p >= 1) ==> f.payload.len() == cfg.payload_len.unwrap()
}

/// The number of payload bits that go with a payload length of `len` bytes:
/// eight for each byte, and one even where there is no byte, because the
/// payload is taken for complete only once a bit of it has come.
pub open spec fn payload_bits_for(len: nat) -> nat {
    if len == 0 {
        1
    } else {
        8 * len
    }
}

/// `buffer` holds padding, address, control field and `payload_bits` bits of
/// payload as the layout asks: the padding is zero, the address agrees with
/// the known prefix, and the payload has the length that is configured and,
/// under Enhanced ShockBurst, announced by the control field.
pub open spec fn body_ok(cfg: ConfigView, buffer: Seq<bool>, payload_bits: int) -> bool {
    &&& padded(cfg, buffer)
    &&& prefix_kept(cfg, buffer)
    &&& cfg.header_end() + payload_bits <= buffer.len()
    &&& 1 <= payload_bits <= 256
    &&& payload_bits == 1 || payload_bits % 8 == 0
    &&& cfg.payload_len matches Some(p) ==> payload_bits == payload_bits_for(p)
    &&& cfg.shockburst ==> payload_bits == payload_bits_for(announced_length(cfg, buffer))
}

/// The fewest bits behind a preamble that hand out a frame under `cfg`.
pub open spec fn least_frame_bits(cfg: ConfigView) -> nat {
    8 * cfg.address_len + cfg.header_bits() + (match cfg.payload_len {
        Some(p) => if p == 0 {
            1nat
        } else {
            8 * p
        },
        None => 1nat,
    }) + 16
}

/// A frame that the layout `cfg` can carry: an admissible one whose payload
/// has the configured size, where one is configured.
pub open spec fn fits(cfg: ConfigView, f: FrameView) -> bool {
    &&& admissible(cfg, f)
    &&& cfg.payload_len matches Some(p) ==> f.payload.len() == p
}

/// A state in which the deframer waits for a preamble and will not take
/// `first`, the first bit of one, for the continuation of an alternation seen
/// before: no bit seen yet, or the last bit seen equal to `first`.
pub open spec fn hunting(s: DecoderView, first: bool) -> bool {
    ||| s is Empty
    ||| s matches DecoderView::Sync { last, .. } && last == first
}

impl DecoderView {
    /// The states that the deframer can be in under `cfg`.
    pub open spec fn wf(self, cfg: ConfigView) -> bool {
        match self {
            DecoderView::Empty => true,
            DecoderView::Sync { count, .. } => 1 <= count <= 8,
            DecoderView::RecvAddr { buffer, expected } => {
                &&& padded(cfg, buffer)
                &&& prefix_kept(cfg, buffer)
                &&& buffer.len() < cfg.address_end()
                &&& expected == still_expected(
                    cfg.address_prefix,
                    buffer.len() - cfg.padding_bits(),
                )
            },
            DecoderView::RecvHeader { buffer, expected } => {
                &&& cfg.shockburst
                &&& padded(cfg, buffer)
                &&& prefix_kept(cfg, buffer)
                &&& length_kept(cfg, buffer)
                &&& cfg.address_end() <= buffer.len() < cfg.header_end()
                &&& expected == still_expected(
                    cfg.length_field(),
                    buffer.len() - cfg.address_end(),
                )
            },
            DecoderView::RecvPayload { end, buffer } => {
                let len = (end - cfg.header_end()) / 8;
                &&& padded(cfg, buffer)
                &&& prefix_kept(cfg, buffer)
                &&& cfg.header_end() <= buffer.len() <= end
                &&& buffer.len() == end ==> end == cfg.header_end()
                &&& end == cfg.payload_end(len as nat)
                &&& len <= 32
                &&& cfg.payload_len matches Some(p) ==> len == p
                &&& cfg.shockburst ==> len == announced_length(cfg, buffer)
            },
            DecoderView::CheckCrc { buffer, expected } => {
                let seen = 16 - expected.len();
                let crc = crc_bits(
                    crc16(cfg.crc_init(), bits_to_bytes(buffer.take(buffer.len() - seen))),
                );
                &&& 1 <= expected.len() <= 16
                &&& expected == crc.skip(seen)
                &&& buffer.skip(buffer.len() - seen) == crc.take(seen)
                &&& body_ok(cfg, buffer, buffer.len() - seen - cfg.header_end())
            },
        }
    }
}

} // verus!
