//! Where the frames come from: every frame handed out was received, bit for
//! bit and with a CRC that holds.

use vstd::prelude::*;
use crate::bits::{
    bits_to_bytes, bytes_to_bits, zeros, lemma_length_field_of_value, lemma_unpack_pack,
};
use crate::checksum::{crc16, crc_bits};
use crate::config::ConfigView;
use crate::frame::FrameView;
use crate::invariants::lemma_advance_ok;
use crate::model::{
    advance, announced_length, body_ok, decode, emitted, fits, frame_of, lemma_advance_held,
    mismatch, prefix_kept, rest, rewound, starts_with, DecoderView, Step,
};
use crate::trace::{covered, full_buffer, on_air};

verus! {

/// The bits that state `s` has received since the address began.
pub open spec fn window(cfg: ConfigView, s: DecoderView) -> Seq<bool> {
    match s {
        DecoderView::Empty => Seq::empty(),
        DecoderView::Sync { .. } => Seq::empty(),
        DecoderView::RecvAddr { buffer, .. } => buffer.skip(cfg.padding_bits() as int),
        DecoderView::RecvHeader { buffer, .. } => buffer.skip(cfg.padding_bits() as int),
        DecoderView::RecvPayload { buffer, .. } => buffer.skip(cfg.padding_bits() as int),
        DecoderView::CheckCrc { buffer, .. } => buffer.skip(cfg.padding_bits() as int),
    }
}

/// `bits` stand in `stream`, one behind the other, from place `at` on.
pub open spec fn stands_at(stream: Seq<bool>, bits: Seq<bool>, at: int) -> bool {
    0 <= at && at + bits.len() <= stream.len() && stream.subrange(at, at + bits.len()) == bits
}

/// `bits` are a stretch of `stream`.
pub open spec fn occurs(stream: Seq<bool>, bits: Seq<bool>) -> bool {
    exists|at: int| stands_at(stream, bits, at)
}

/// `bits`, led by the padding, end with the CRC of what stands before it.
pub open spec fn checked(cfg: ConfigView, bits: Seq<bool>) -> bool {
    let buffer = zeros(cfg.padding_bits()) + bits;
    &&& bits.len() >= 16
    &&& buffer.skip(buffer.len() - 16) == crc_bits(
        crc16(cfg.crc_init(), bits_to_bytes(buffer.take(buffer.len() - 16))),
    )
}

/// `bits` are address, control field, payload and CRC as the layout asks:
/// the address agrees with the known prefix, and the payload has the length
/// that is configured and, under Enhanced ShockBurst, announced.
pub open spec fn framed(cfg: ConfigView, bits: Seq<bool>) -> bool {
    let buffer = zeros(cfg.padding_bits()) + bits;
    body_ok(cfg, buffer, buffer.len() - 16 - cfg.header_end())
}

/// `bits` are a stretch of `stream`, framed as the layout asks and with a CRC
/// that holds, and `f` is the frame that they hold.
pub open spec fn holds_frame(
    cfg: ConfigView,
    f: FrameView,
    stream: Seq<bool>,
    bits: Seq<bool>,
) -> bool {
    &&& occurs(stream, bits)
    &&& checked(cfg, bits)
    &&& framed(cfg, bits)
    &&& f == frame_of(cfg, zeros(cfg.padding_bits()) + bits)
}

/// `f` was sent in `stream`: the bits of `f`, with some packet id and
/// no-acknowledge flag, are a stretch of it.
pub open spec fn sent(cfg: ConfigView, f: FrameView, stream: Seq<bool>) -> bool {
    exists|flags: Seq<bool>| flags.len() == 3 && occurs(stream, #[trigger] on_air(cfg, f, flags))
}

/// `f` was received in `stream`: some stretch of it holds `f`, is framed as
/// the layout asks and has a CRC that holds.
pub open spec fn received(cfg: ConfigView, f: FrameView, stream: Seq<bool>) -> bool {
    exists|bits: Seq<bool>| holds_frame(cfg, f, stream, bits)
}

/// Every frame of `frames` was received in `stream`.
pub open spec fn all_received(cfg: ConfigView, frames: Seq<FrameView>, stream: Seq<bool>) -> bool {
    forall|i: int| 0 <= i < frames.len() ==> received(cfg, #[trigger] frames[i], stream)
}

/// What was received in the rest of a stream was received in the stream.
proof fn lemma_received_later(cfg: ConfigView, frames: Seq<FrameView>, stream: Seq<bool>, k: int)
    requires
        0 <= k <= stream.len(),
        all_received(cfg, frames, stream.skip(k)),
    ensures
        all_received(cfg, frames, stream),
{
    assert forall|i: int| 0 <= i < frames.len() implies received(
        cfg,
        #[trigger] frames[i],
        stream,
    ) by {
        let f = frames[i];
        let bits = choose|bits: Seq<bool>| holds_frame(cfg, f, stream.skip(k), bits);
        let at = choose|at: int| stands_at(stream.skip(k), bits, at);
        assert(stream.subrange(at + k, at + k + bits.len()) =~= stream.skip(k).subrange(
            at,
            at + bits.len(),
        ));
        assert(stands_at(stream, bits, at + k));
        assert(holds_frame(cfg, f, stream, bits));
    }
}

/// What a step does to the window of a state whose buffer is `buffer`: it
/// grows by the bit read or is given up, and a rewind reads again all of it
/// but its first bit.
pub open spec fn window_moves(cfg: ConfigView, before: Seq<bool>, bit: bool, step: Step) -> bool {
    match step {
        Step::Next(next, frame) => {
            &&& window(cfg, next) == if next is Empty || next is Sync {
                Seq::<bool>::empty()
            } else {
                before.push(bit)
            }
            &&& frame matches Some(f) ==> checked(cfg, before.push(bit)) && framed(
                cfg,
                before.push(bit),
            ) && f == frame_of(cfg, zeros(cfg.padding_bits()) + before.push(bit))
        },
        Step::Rewind(buffer) => {
            &&& rewound(cfg, buffer).1 == before.push(bit).skip(1)
            &&& window(cfg, rewound(cfg, buffer).0) == Seq::<bool>::empty()
        },
    }
}

/// Pushing a bit onto a buffer pushes it onto what stands behind the padding.
proof fn lemma_push_behind_padding(cfg: ConfigView, buffer: Seq<bool>, bit: bool)
    requires
        cfg.padding_bits() <= buffer.len(),
    ensures
        buffer.push(bit).skip(cfg.padding_bits() as int) == buffer.skip(
            cfg.padding_bits() as int,
        ).push(bit),
        buffer.push(bit).skip(cfg.padding_bits() as int + 1) == buffer.skip(
            cfg.padding_bits() as int,
        ).push(bit).skip(1),
{
    let pad = cfg.padding_bits() as int;
    assert(buffer.push(bit).skip(pad) =~= buffer.skip(pad).push(bit));
    assert(buffer.push(bit).skip(pad + 1) =~= buffer.skip(pad).push(bit).skip(1));
}

/// The last CRC bit: the buffer ends with the CRC of what stands before it.
proof fn lemma_crc_complete(cfg: ConfigView, buffer: Seq<bool>, expected: Seq<bool>, bit: bool)
    requires
        cfg.wf(),
        (DecoderView::CheckCrc { buffer, expected }).wf(cfg),
        !mismatch(expected, bit),
        rest(expected).len() == 0,
    ensures
        checked(cfg, buffer.push(bit).skip(cfg.padding_bits() as int)),
        framed(cfg, buffer.push(bit).skip(cfg.padding_bits() as int)),
        zeros(cfg.padding_bits()) + buffer.push(bit).skip(cfg.padding_bits() as int)
            == buffer.push(bit),
{
    lemma_advance_ok(cfg, DecoderView::CheckCrc { buffer, expected }, bit);
    if cfg.shockburst {
        let from = cfg.address_end() as int;
        assert(buffer.push(bit).subrange(from, from + 6) =~= buffer.subrange(from, from + 6));
    }
    assert(prefix_kept(cfg, buffer.push(bit))) by {
        assert forall|i: int|
            0 <= i < cfg.address_prefix.len() && i < 8 * cfg.address_len && cfg.padding_bits() + i
                < buffer.push(bit).len() implies buffer.push(bit)[cfg.padding_bits() + i]
            == #[trigger] cfg.address_prefix[i] by {
            assert(buffer.push(bit)[cfg.padding_bits() + i] == buffer[cfg.padding_bits() + i]);
        }
    }
    let pad = cfg.padding_bits() as int;
    let data = buffer.push(bit);
    let start = buffer.len() - 15;
    let crc = crc_bits(crc16(cfg.crc_init(), bits_to_bytes(buffer.take(start))));
    assert(crc.len() == 16);
    assert(expected.len() == 1);
    assert(expected[0] == crc[15]);
    assert(zeros(cfg.padding_bits()) + data.skip(pad) =~= data);
    assert(data.take(data.len() - 16) =~= buffer.take(start));
    assert forall|i: int| 0 <= i < 16 implies data.skip(data.len() - 16)[i] == crc[i] by {
        if i < 15 {
            assert(data[start + i] == buffer.skip(start)[i]);
            assert(crc.take(15)[i] == crc[i]);
        }
    }
    assert(data.skip(data.len() - 16) =~= crc);
}

/// A step keeps the window in step with the stream.
pub proof fn lemma_window_moves(cfg: ConfigView, s: DecoderView, bit: bool)
    requires
        cfg.wf(),
        s.wf(cfg),
    ensures
        window_moves(cfg, window(cfg, s), bit, advance(cfg, s, bit)),
{
    let pad = cfg.padding_bits() as int;
    match s {
        DecoderView::Empty => {},
        DecoderView::Sync { count, last } => {
            if last != bit && count == 8 {
                let start = zeros(cfg.padding_bits());
                lemma_push_behind_padding(cfg, start, bit);
                assert(start.skip(pad) =~= Seq::<bool>::empty());
            }
        },
        DecoderView::RecvAddr { buffer, expected } => {
            lemma_push_behind_padding(cfg, buffer, bit);
        },
        DecoderView::RecvHeader { buffer, expected } => {
            lemma_push_behind_padding(cfg, buffer, bit);
        },
        DecoderView::RecvPayload { end, buffer } => {
            lemma_push_behind_padding(cfg, buffer, bit);
        },
        DecoderView::CheckCrc { buffer, expected } => {
            lemma_push_behind_padding(cfg, buffer, bit);
            if !mismatch(expected, bit) && rest(expected).len() == 0 {
                lemma_crc_complete(cfg, buffer, expected, bit);
            }
        },
    }
}

/// What a step leaves to be read, the window counted in, is the rest of what
/// there was from some place on; and a frame that the step hands out was
/// received in it.
proof fn lemma_step_keeps_stream(cfg: ConfigView, s: DecoderView, bit: bool, rest: Seq<bool>) -> (k:
    int)
    requires
        cfg.wf(),
        s.wf(cfg),
    ensures
        0 <= k <= (window(cfg, s).push(bit) + rest).len(),
        match advance(cfg, s, bit) {
            Step::Next(next, frame) => {
                &&& window(cfg, next) + rest == (window(cfg, s).push(bit) + rest).skip(k)
                &&& frame matches Some(f) ==> received(cfg, f, window(cfg, s).push(bit) + rest)
            },
            Step::Rewind(buffer) => window(cfg, rewound(cfg, buffer).0) + (rewound(cfg, buffer).1
                + rest) == (window(cfg, s).push(bit) + rest).skip(k),
        },
{
    let grown = window(cfg, s).push(bit);
    let stream = grown + rest;
    lemma_window_moves(cfg, s, bit);
    match advance(cfg, s, bit) {
        Step::Next(next, frame) => {
            if let Some(f) = frame {
                assert(stream.subrange(0, grown.len() as int) =~= grown);
                assert(stands_at(stream, grown, 0));
                assert(holds_frame(cfg, f, stream, grown));
            }
            if window(cfg, next) == grown {
                assert(stream.skip(0) =~= stream);
                0
            } else {
                assert(window(cfg, next) + rest =~= stream.skip(grown.len() as int));
                grown.len() as int
            }
        },
        Step::Rewind(buffer) => {
            assert(window(cfg, rewound(cfg, buffer).0) + (rewound(cfg, buffer).1 + rest)
                =~= stream.skip(1));
            1
        },
    }
}

/// Frames received in a stream, one and then others, were all received in it.
proof fn lemma_received_joined(
    cfg: ConfigView,
    frame: Option<FrameView>,
    later: Seq<FrameView>,
    stream: Seq<bool>,
)
    requires
        frame matches Some(f) ==> received(cfg, f, stream),
        all_received(cfg, later, stream),
    ensures
        all_received(cfg, emitted(frame) + later, stream),
{
    let frames = emitted(frame) + later;
    assert forall|i: int| 0 <= i < frames.len() implies received(
        cfg,
        #[trigger] frames[i],
        stream,
    ) by {
        if i >= emitted(frame).len() {
            assert(frames[i] == later[i - emitted(frame).len()]);
        }
    }
}

/// Every frame handed out was received: it is held by a stretch of the bits
/// read, those held in the receive buffer at the start counted in, and that
/// stretch ends with the CRC of what stands before it.
pub proof fn lemma_frames_were_received(cfg: ConfigView, s: DecoderView, input: Seq<bool>)
    requires
        cfg.wf(),
        s.wf(cfg),
    ensures
        all_received(cfg, decode(cfg, s, input).1, window(cfg, s) + input),
    decreases s.held(cfg) + input.len(), input.len(),
{
    if input.len() > 0 {
        let bit = input[0];
        let rest = input.skip(1);
        let stream = window(cfg, s).push(bit) + rest;
        assert(stream =~= window(cfg, s) + input);
        lemma_advance_ok(cfg, s, bit);
        lemma_advance_held(cfg, s, bit);
        let k = lemma_step_keeps_stream(cfg, s, bit, rest);
        match advance(cfg, s, bit) {
            Step::Next(next, frame) => {
                lemma_frames_were_received(cfg, next, rest);
                let later = decode(cfg, next, rest).1;
                lemma_received_later(cfg, later, stream, k);
                lemma_received_joined(cfg, frame, later, stream);
            },
            Step::Rewind(buffer) => {
                let again = rewound(cfg, buffer).1;
                lemma_frames_were_received(cfg, rewound(cfg, buffer).0, again + rest);
                lemma_received_later(cfg, decode(cfg, s, input).1, stream, k);
            },
        }
    }
}

/// The bits of whole bytes held by a stretch of a buffer are that stretch.
proof fn lemma_bytes_held(buffer: Seq<bool>, from: int, to: int)
    requires
        0 <= from <= to <= buffer.len(),
        (to - from) % 8 == 0,
    ensures
        bytes_to_bits(bits_to_bytes(buffer.subrange(from, to))) == buffer.subrange(from, to),
        bits_to_bytes(buffer.subrange(from, to)).len() * 8 == to - from,
{
    lemma_unpack_pack(buffer.subrange(from, to));
}

/// The control field of a framed buffer whose payload has whole bytes is the
/// length field of the frame it holds, followed by three more bits.
proof fn lemma_control_field_held(cfg: ConfigView, buffer: Seq<bool>)
    requires
        cfg.wf(),
        cfg.shockburst,
        body_ok(cfg, buffer, buffer.len() - 16 - cfg.header_end()),
        (buffer.len() - 16 - cfg.header_end()) % 8 == 0,
    ensures
        buffer.subrange(cfg.address_end() as int, cfg.address_end() as int + 6) == frame_of(
            cfg,
            buffer,
        ).length_field(),
{
    let from = cfg.address_end() as int;
    let six = buffer.subrange(from, from + 6);
    let f = frame_of(cfg, buffer);
    lemma_length_field_of_value(six);
    lemma_bytes_held(buffer, cfg.header_end() as int, buffer.len() - 16);
    assert(announced_length(cfg, buffer) == f.payload.len());
    assert((f.payload.len() % 256) as u8 == f.payload.len() as u8);
}

/// The stretch that holds a frame is the bits of that frame, as they are sent
/// with some packet id and no-acknowledge flag, unless the stretch has a single
/// bit of payload: that happens only where the payload length is configured or
/// announced as zero, and then the payload handed out has one byte.
pub proof fn lemma_received_is_sent(cfg: ConfigView, f: FrameView, stream: Seq<bool>)
    requires
        cfg.wf(),
        received(cfg, f, stream),
        cfg.payload_len != Some(0nat),
        cfg.payload_len.is_some() || f.payload.len() >= 2,
    ensures
        sent(cfg, f, stream),
        fits(cfg, f),
{
    let bits = choose|bits: Seq<bool>| holds_frame(cfg, f, stream, bits);
    let pad = cfg.padding_bits() as int;
    let data = zeros(cfg.padding_bits()) + bits;
    let from = cfg.address_end() as int;
    let body = cfg.header_end() as int;
    let end = data.len() - 16;
    if (end - body) % 8 != 0 {
        // a single bit of payload makes a single byte
        assert(bits_to_bytes(data.subrange(body, end)).len() == 1);
    }
    lemma_bytes_held(data, pad, from);
    lemma_bytes_held(data, body, end);
    let flags = if cfg.shockburst {
        data.subrange(from + 6, body)
    } else {
        zeros(3)
    };
    if cfg.shockburst {
        lemma_control_field_held(cfg, data);
    }
    assert(covered(cfg, f, flags) =~= data.take(end));
    assert(full_buffer(cfg, f, flags) =~= data);
    assert(on_air(cfg, f, flags) =~= bits);
    assert(starts_with(f.address, cfg.address_prefix)) by {
        assert forall|i: int|
            0 <= i < cfg.address_prefix.len() && i < 8 * f.address.len() implies bytes_to_bits(
            f.address,
        )[i] == #[trigger] cfg.address_prefix[i] by {
            assert(data.subrange(pad, from)[i] == data[pad + i]);
        }
    }
}

/// Every frame handed out was sent, unless it comes of a payload length of
/// zero: where the layout fixes a payload length that is not zero, or the
/// frame has two bytes of payload or more, the bits of that very frame, with
/// some packet id and no-acknowledge flag, stand in the bits read, those
/// held in the receive buffer at the start counted in.
pub proof fn lemma_frames_were_sent(cfg: ConfigView, s: DecoderView, input: Seq<bool>)
    requires
        cfg.wf(),
        s.wf(cfg),
        cfg.payload_len != Some(0nat),
    ensures
        forall|i: int|
            0 <= i < decode(cfg, s, input).1.len() && (cfg.payload_len.is_some() || decode(
                cfg,
                s,
                input,
            ).1[i].payload.len() >= 2) ==> sent(
                cfg,
                #[trigger] decode(cfg, s, input).1[i],
                window(cfg, s) + input,
            ),
{
    lemma_frames_were_received(cfg, s, input);
    let frames = decode(cfg, s, input).1;
    let stream = window(cfg, s) + input;
    assert forall|i: int|
        0 <= i < frames.len() && (cfg.payload_len.is_some() || frames[i].payload.len()
            >= 2) implies sent(cfg, #[trigger] frames[i], stream) by {
        lemma_received_is_sent(cfg, frames[i], stream);
    }
}

/// Nothing comes of nothing: a stream of which no stretch is framed as the
/// layout asks with a CRC that holds hands out no frame, whatever state the
/// deframer is in, as long as that holds of the bits in its receive buffer
/// too.
pub proof fn lemma_nothing_valid_nothing_out(cfg: ConfigView, s: DecoderView, input: Seq<bool>)
    requires
        cfg.wf(),
        s.wf(cfg),
        forall|bits: Seq<bool>|
            #[trigger] occurs(window(cfg, s) + input, bits) ==> !(checked(cfg, bits) && framed(
                cfg,
                bits,
            )),
    ensures
        decode(cfg, s, input).1 == Seq::<FrameView>::empty(),
{
    lemma_frames_were_received(cfg, s, input);
    let frames = decode(cfg, s, input).1;
    if frames.len() > 0 {
        let bits = choose|bits: Seq<bool>|
            holds_frame(cfg, frames[0], window(cfg, s) + input, bits);
        assert(occurs(window(cfg, s) + input, bits));
    }
    assert(frames =~= Seq::<FrameView>::empty());
}

/// What a fresh deframer finds was sent: where the layout fixes a payload
/// length that is not zero, the bits of every frame found, with some packet id
/// and no-acknowledge flag, stand in the bits read.
pub proof fn lemma_found_frames_were_sent(cfg: ConfigView, input: Seq<bool>)
    requires
        cfg.wf(),
        cfg.payload_len matches Some(len) && len >= 1,
    ensures
        forall|i: int|
            0 <= i < decode(cfg, DecoderView::Empty, input).1.len() ==> sent(
                cfg,
                #[trigger] decode(cfg, DecoderView::Empty, input).1[i],
                input,
            ),
{
    lemma_frames_were_sent(cfg, DecoderView::Empty, input);
    assert(window(cfg, DecoderView::Empty) + input =~= input);
}

} // verus!
