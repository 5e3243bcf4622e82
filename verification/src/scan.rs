//! The first frame of a stream is found: the deframer slides over what
//! stands before it, one bit at a time, and loses nothing.

use vstd::prelude::*;
use crate::config::ConfigView;
use crate::frame::{with_preamble, FrameView};
use crate::invariants::lemma_advance_ok;
use crate::bits::{be_value, zeros};
use crate::model::{
    advance, announced_length, decode, fits, lemma_advance_held, padded, payload_bits_for,
    prefix_kept, rewound, DecoderView, Step,
};
use crate::provenance::{checked, framed, lemma_window_moves, window};
use crate::trace::{
    body_bits, covered, encoding, full_buffer, lemma_decode_next, lemma_fits, lemma_lengths,
    lemma_rest_found, lemma_start, on_air, state_at,
};

verus! {

/// The payload length that a start at place `at` of `stream` goes by: the
/// one that the six length bits behind its address announce under Enhanced
/// ShockBurst, else the configured one.
pub open spec fn length_at(cfg: ConfigView, stream: Seq<bool>, at: int) -> nat {
    if cfg.shockburst {
        be_value(stream.subrange(at + 8 * cfg.address_len, at + 8 * cfg.address_len + 6))
    } else {
        cfg.payload_len.unwrap()
    }
}

/// The bits that a start at place `at` lays claim to: address, control field,
/// the payload of its length, and the CRC.
pub open spec fn claim(cfg: ConfigView, stream: Seq<bool>, at: int) -> nat {
    8 * cfg.address_len + cfg.header_bits() + payload_bits_for(length_at(cfg, stream, at)) + 16
}

/// The stretch of `stream` that a start at place `at` lays claim to lies
/// within it, is framed as the layout asks and ends with a CRC that holds.
pub open spec fn valid_at(cfg: ConfigView, stream: Seq<bool>, at: int) -> bool {
    let bits = stream.subrange(at, at + claim(cfg, stream, at));
    &&& 0 <= at
    &&& at + claim(cfg, stream, at) <= stream.len()
    &&& checked(cfg, bits)
    &&& framed(cfg, bits)
}

/// A start at place `at` gets as far as its payload: address and control
/// field lie within the stream, the address agrees with the known prefix, and
/// under Enhanced ShockBurst the length announced is one the layout takes.
pub open spec fn opens_at(cfg: ConfigView, stream: Seq<bool>, at: int) -> bool {
    let head = zeros(cfg.padding_bits()) + stream.subrange(
        at,
        at + 8 * cfg.address_len + cfg.header_bits(),
    );
    &&& 0 <= at
    &&& at + 8 * cfg.address_len + cfg.header_bits() <= stream.len()
    &&& prefix_kept(cfg, head)
    &&& cfg.shockburst ==> {
        &&& announced_length(cfg, head) <= 32
        &&& cfg.payload_len matches Some(p) ==> announced_length(cfg, head) == p
    }
}

/// No start before place `body` that gets as far as its payload lays claim
/// to more bits than `stream` has.
pub open spec fn starts_end_within(cfg: ConfigView, stream: Seq<bool>, body: int) -> bool {
    forall|at: int|
        0 <= at < body && #[trigger] opens_at(cfg, stream, at) ==> at + claim(cfg, stream, at)
            <= stream.len()
}

/// No start before place `body` has a stretch that is valid.
pub open spec fn none_valid_before(cfg: ConfigView, stream: Seq<bool>, body: int) -> bool {
    forall|at: int| 0 <= at < body ==> !#[trigger] valid_at(cfg, stream, at)
}

/// The place in a stream of `len` bits where the window of `s` starts, when
/// `input` is what is still to be read.
pub open spec fn window_start(cfg: ConfigView, s: DecoderView, len: nat, input: Seq<bool>) -> int {
    len - input.len() - window(cfg, s).len()
}

/// The machine is on its way through `stream` to the frame whose bits start
/// at place `body`: what it holds and what it has still to read are the rest
/// of the stream, it holds nothing from behind `body`, and within the
/// preamble it has counted every bit.
pub open spec fn on_course(
    cfg: ConfigView,
    stream: Seq<bool>,
    body: int,
    s: DecoderView,
    input: Seq<bool>,
) -> bool {
    let at = window_start(cfg, s, stream.len(), input);
    &&& s.wf(cfg)
    &&& 0 <= at <= body
    &&& window(cfg, s) + input == stream.skip(at)
    &&& match s {
        DecoderView::Empty => at + 8 <= body,
        DecoderView::Sync { count, last } => {
            &&& at >= 1
            &&& last == stream[at - 1]
            &&& at + 8 > body ==> count >= at + 8 - body
        },
        _ => true,
    }
}

/// The buffer of a state is its window behind the padding.
proof fn lemma_buffer_is_padded_window(cfg: ConfigView, buffer: Seq<bool>)
    requires
        padded(cfg, buffer),
    ensures
        buffer == zeros(cfg.padding_bits()) + buffer.skip(cfg.padding_bits() as int),
{
    assert(buffer =~= zeros(cfg.padding_bits()) + buffer.skip(cfg.padding_bits() as int));
}

/// What a receiving state on course says of the start that it is on: once it
/// has the control field the start has opened, and it holds less than the
/// start lays claim to.
proof fn lemma_state_and_start(
    cfg: ConfigView,
    stream: Seq<bool>,
    body: int,
    s: DecoderView,
    input: Seq<bool>,
)
    requires
        cfg.wf(),
        body <= stream.len(),
        on_course(cfg, stream, body, s, input),
        !(s is Empty),
        !(s is Sync),
    ensures
        window(cfg, s).len() >= 8 * cfg.address_len + cfg.header_bits() ==> {
            &&& opens_at(cfg, stream, window_start(cfg, s, stream.len(), input))
            &&& window(cfg, s).len() < claim(
                cfg,
                stream,
                window_start(cfg, s, stream.len(), input),
            )
            &&& zeros(cfg.padding_bits()) + window(cfg, s) == match s {
                DecoderView::RecvPayload { buffer, .. } => buffer,
                DecoderView::CheckCrc { buffer, .. } => buffer,
                _ => arbitrary(),
            }
            &&& s is RecvPayload || s is CheckCrc
            &&& cfg.shockburst ==> length_at(
                cfg,
                stream,
                window_start(cfg, s, stream.len(), input),
            ) == announced_length(cfg, zeros(cfg.padding_bits()) + window(cfg, s))
        },
        window(cfg, s).len() < 8 * cfg.address_len + cfg.header_bits() ==> s is RecvAddr || s
            is RecvHeader,
{
    let held = window(cfg, s);
    let at = window_start(cfg, s, stream.len(), input);
    let pad = cfg.padding_bits() as int;
    let head_len = 8 * cfg.address_len + cfg.header_bits();
    lemma_course_lengths(cfg, stream, body, s, input);
    if held.len() >= head_len {
        let buffer = match s {
            DecoderView::RecvPayload { buffer, .. } => buffer,
            DecoderView::CheckCrc { buffer, .. } => buffer,
            _ => arbitrary(),
        };
        lemma_buffer_is_padded_window(cfg, buffer);
        let head = zeros(cfg.padding_bits()) + stream.subrange(at, at + head_len);
        assert(head =~= buffer.take(pad + head_len));
        assert(prefix_kept(cfg, head)) by {
            assert forall|i: int|
                0 <= i < cfg.address_prefix.len() && i < 8 * cfg.address_len && pad + i
                    < head.len() implies head[pad + i] == #[trigger] cfg.address_prefix[i] by {
                assert(head[pad + i] == buffer[pad + i]);
            }
        }
        if cfg.shockburst {
            let from = cfg.address_end() as int;
            assert(head.subrange(from, from + 6) =~= buffer.subrange(from, from + 6));
            assert(stream.subrange(at + 8 * cfg.address_len, at + 8 * cfg.address_len + 6)
                =~= buffer.subrange(from, from + 6));
        }
    }
}

/// A buffer whose bits behind the padding are the first `k` bits of a frame
/// is the start of the full buffer of that frame.
proof fn lemma_buffer_of_window(
    cfg: ConfigView,
    f: FrameView,
    flags: Seq<bool>,
    buffer: Seq<bool>,
    k: nat,
)
    requires
        cfg.wf(),
        flags.len() == 3,
        padded(cfg, buffer),
        k <= on_air(cfg, f, flags).len(),
        buffer.skip(cfg.padding_bits() as int) == on_air(cfg, f, flags).take(k as int),
    ensures
        buffer == full_buffer(cfg, f, flags).take((cfg.padding_bits() + k) as int),
{
    let pad = cfg.padding_bits() as int;
    let whole = full_buffer(cfg, f, flags);
    let air = on_air(cfg, f, flags);
    assert(buffer.len() == pad + k) by {
        assert(buffer.skip(pad).len() == air.take(k as int).len());
    }
    assert forall|i: int| 0 <= i < pad + k implies buffer[i] == whole[i] by {
        if i >= pad {
            assert(buffer[i] == buffer.skip(pad)[i - pad]);
            assert(air.take(k as int)[i - pad] == air[i - pad]);
        }
    }
    assert(buffer =~= whole.take(pad + k));
}

/// A state that holds the first `k` bits of a frame is the `k`-th state of
/// its trace.
proof fn lemma_state_of_window(cfg: ConfigView, f: FrameView, flags: Seq<bool>, s: DecoderView)
    requires
        cfg.wf(),
        fits(cfg, f),
        flags.len() == 3,
        s.wf(cfg),
        !(s is Empty),
        !(s is Sync),
        window(cfg, s).len() <= on_air(cfg, f, flags).len(),
        window(cfg, s) == on_air(cfg, f, flags).take(window(cfg, s).len() as int),
    ensures
        window(cfg, s).len() <= body_bits(cfg, f) + 15,
        s == state_at(cfg, f, flags, window(cfg, s).len()),
{
    lemma_fits(cfg, f);
    lemma_lengths(cfg, f, flags);
    let k = window(cfg, s).len();
    let from = cfg.address_end() as int;
    match s {
        DecoderView::RecvAddr { buffer, expected } => {
            lemma_buffer_of_window(cfg, f, flags, buffer, k);
        },
        DecoderView::RecvHeader { buffer, expected } => {
            lemma_buffer_of_window(cfg, f, flags, buffer, k);
        },
        DecoderView::RecvPayload { end, buffer } => {
            lemma_buffer_of_window(cfg, f, flags, buffer, k);
            if cfg.shockburst {
                assert(buffer.subrange(from, from + 6) =~= f.length_field());
            }
        },
        DecoderView::CheckCrc { buffer, expected } => {
            lemma_buffer_of_window(cfg, f, flags, buffer, k);
            if cfg.shockburst {
                assert(buffer.subrange(from, from + 6) =~= f.length_field());
            }
            let seen = 16 - expected.len();
            assert(buffer.take(buffer.len() - seen) =~= covered(cfg, f, flags));
        },
        _ => {},
    }
}

/// What a machine on course holds and has still to read are as many bits as
/// the stream has from the start of its window on.
proof fn lemma_course_lengths(
    cfg: ConfigView,
    stream: Seq<bool>,
    body: int,
    s: DecoderView,
    input: Seq<bool>,
)
    requires
        on_course(cfg, stream, body, s, input),
        body <= stream.len(),
    ensures
        window(cfg, s).len() + input.len() == stream.len() - window_start(
            cfg,
            s,
            stream.len(),
            input,
        ),
        forall|i: int|
            0 <= i < input.len() ==> input[i] == #[trigger] stream[window_start(
                cfg,
                s,
                stream.len(),
                input,
            ) + window(cfg, s).len() + i],
        forall|i: int|
            0 <= i < window(cfg, s).len() ==> window(cfg, s)[i] == #[trigger] stream[window_start(
                cfg,
                s,
                stream.len(),
                input,
            ) + i],
{
    let held = window(cfg, s);
    let at = window_start(cfg, s, stream.len(), input);
    assert((held + input).len() == stream.skip(at).len());
    assert forall|i: int| 0 <= i < input.len() implies input[i] == #[trigger] stream[at
        + held.len() + i] by {
        assert((held + input)[held.len() + i] == input[i]);
        assert(stream.skip(at)[held.len() + i] == stream[at + held.len() + i]);
    }
    assert forall|i: int| 0 <= i < held.len() implies held[i] == #[trigger] stream[at + i] by {
        assert((held + input)[i] == held[i]);
        assert(stream.skip(at)[i] == stream[at + i]);
    }
}

/// A frame that comes out on the way comes of a valid stretch.
proof fn lemma_no_frame_on_the_way(
    cfg: ConfigView,
    stream: Seq<bool>,
    body: int,
    s: DecoderView,
    input: Seq<bool>,
)
    requires
        cfg.wf(),
        body <= stream.len(),
        on_course(cfg, stream, body, s, input),
        input.len() > 0,
        advance(cfg, s, input[0]) matches Step::Next(_, Some(_)),
    ensures
        valid_at(cfg, stream, window_start(cfg, s, stream.len(), input)),
{
    let held = window(cfg, s);
    let at = window_start(cfg, s, stream.len(), input);
    let grown = held.push(input[0]);
    lemma_course_lengths(cfg, stream, body, s, input);
    lemma_state_and_start(cfg, stream, body, s, input);
    lemma_window_moves(cfg, s, input[0]);
    assert(stream.subrange(at, at + grown.len()) =~= grown);
    if cfg.shockburst {
        let from = cfg.address_end() as int;
        let buffer = zeros(cfg.padding_bits()) + grown;
        assert(buffer.subrange(from, from + 6) =~= (zeros(cfg.padding_bits()) + held).subrange(
            from,
            from + 6,
        ));
    }
    assert(grown.len() == claim(cfg, stream, at));
}

/// A machine on course before the frame has more to read.
proof fn lemma_more_to_read(
    cfg: ConfigView,
    stream: Seq<bool>,
    body: int,
    s: DecoderView,
    input: Seq<bool>,
)
    requires
        cfg.wf(),
        body + 8 * cfg.address_len + cfg.header_bits() <= stream.len(),
        starts_end_within(cfg, stream, body),
        on_course(cfg, stream, body, s, input),
        window_start(cfg, s, stream.len(), input) < body,
    ensures
        input.len() > 0,
{
    lemma_course_lengths(cfg, stream, body, s, input);
    if !(s is Empty) && !(s is Sync) {
        lemma_state_and_start(cfg, stream, body, s, input);
    }
}

/// What a step leaves of a machine on course: the next state with the rest of
/// the input where it hands out nothing, or the rewound state with the bits to
/// be read again before the rest of the input.
pub open spec fn course_after(
    cfg: ConfigView,
    stream: Seq<bool>,
    body: int,
    s: DecoderView,
    input: Seq<bool>,
) -> bool {
    match advance(cfg, s, input[0]) {
        Step::Next(next, frame) => frame.is_none() ==> on_course(
            cfg,
            stream,
            body,
            next,
            input.skip(1),
        ),
        Step::Rewind(buffer) => on_course(
            cfg,
            stream,
            body,
            rewound(cfg, buffer).0,
            rewound(cfg, buffer).1 + input.skip(1),
        ),
    }
}

/// A step keeps a machine on course that is waiting for a preamble.
proof fn lemma_course_kept_hunting(
    cfg: ConfigView,
    stream: Seq<bool>,
    body: int,
    s: DecoderView,
    input: Seq<bool>,
)
    requires
        cfg.wf(),
        8 <= body <= stream.len(),
        forall|i: int| body - 8 <= i < body ==> #[trigger] stream[i] != stream[i + 1],
        on_course(cfg, stream, body, s, input),
        window_start(cfg, s, stream.len(), input) < body,
        input.len() > 0,
        s is Empty || s is Sync,
    ensures
        course_after(cfg, stream, body, s, input),
{
    let at = window_start(cfg, s, stream.len(), input);
    let bit = input[0];
    lemma_course_lengths(cfg, stream, body, s, input);
    lemma_advance_ok(cfg, s, bit);
    lemma_window_moves(cfg, s, bit);
    assert(input =~= stream.skip(at));
    assert(bit == stream[at + 0 + 0]);
    assert(input.skip(1) =~= stream.skip(at + 1));
    match advance(cfg, s, bit) {
        Step::Next(next, frame) => {
            if next is Sync {
                assert(window(cfg, next) + input.skip(1) =~= stream.skip(at + 1));
                if at + 8 > body {
                    assert(stream[at - 1] != stream[at - 1 + 1]);
                }
            } else {
                assert(window(cfg, next) + input.skip(1) =~= stream.skip(at));
            }
        },
        Step::Rewind(buffer) => {
            assert(rewound(cfg, buffer).1 + input.skip(1) =~= stream.skip(at + 1));
        },
    }
}

/// A step keeps a machine on course that is receiving.
#[verifier::rlimit(30)]
proof fn lemma_course_kept_receiving(
    cfg: ConfigView,
    stream: Seq<bool>,
    body: int,
    s: DecoderView,
    input: Seq<bool>,
)
    requires
        cfg.wf(),
        8 <= body <= stream.len(),
        on_course(cfg, stream, body, s, input),
        window_start(cfg, s, stream.len(), input) < body,
        input.len() > 0,
        !(s is Empty),
        !(s is Sync),
    ensures
        course_after(cfg, stream, body, s, input),
{
    let held = window(cfg, s);
    let at = window_start(cfg, s, stream.len(), input);
    let bit = input[0];
    let grown = held.push(bit);
    lemma_course_lengths(cfg, stream, body, s, input);
    lemma_advance_ok(cfg, s, bit);
    lemma_window_moves(cfg, s, bit);
    assert(grown + input.skip(1) =~= held + input);
    match advance(cfg, s, bit) {
        Step::Next(next, frame) => {},
        Step::Rewind(buffer) => {
            let again = rewound(cfg, buffer).1;
            assert(stream.skip(at).skip(1) =~= stream.skip(at + 1));
            assert(again + input.skip(1) =~= stream.skip(at + 1)) by {
                assert(grown.skip(1) + input.skip(1) =~= (grown + input.skip(1)).skip(1));
            }
            if held.len() > 0 {
                assert(held[0] == stream[at + 0]);
            } else {
                assert(input[0] == stream[at + held.len() + 0]);
            }
        },
    }
}

/// A step that hands out nothing keeps the machine on course.
proof fn lemma_course_kept(
    cfg: ConfigView,
    stream: Seq<bool>,
    body: int,
    s: DecoderView,
    input: Seq<bool>,
)
    requires
        cfg.wf(),
        8 <= body <= stream.len(),
        forall|i: int| body - 8 <= i < body ==> #[trigger] stream[i] != stream[i + 1],
        on_course(cfg, stream, body, s, input),
        window_start(cfg, s, stream.len(), input) < body,
        input.len() > 0,
    ensures
        course_after(cfg, stream, body, s, input),
{
    if s is Empty || s is Sync {
        lemma_course_kept_hunting(cfg, stream, body, s, input);
    } else {
        lemma_course_kept_receiving(cfg, stream, body, s, input);
    }
}

/// At the frame the machine is in the trace of the frame, or about to enter
/// it.
proof fn lemma_at_the_frame(
    cfg: ConfigView,
    f: FrameView,
    flags: Seq<bool>,
    stream: Seq<bool>,
    body: int,
    s: DecoderView,
    input: Seq<bool>,
)
    requires
        cfg.wf(),
        fits(cfg, f),
        flags.len() == 3,
        8 <= body,
        stream.len() == body + on_air(cfg, f, flags).len(),
        stream.skip(body) == on_air(cfg, f, flags),
        stream[body - 1] != stream[body],
        on_course(cfg, stream, body, s, input),
        window_start(cfg, s, stream.len(), input) == body,
    ensures
        decode(cfg, s, input) == (DecoderView::Empty, seq![f]),
{
    let air = on_air(cfg, f, flags);
    let held = window(cfg, s);
    lemma_lengths(cfg, f, flags);
    lemma_course_lengths(cfg, stream, body, s, input);
    assert(held =~= air.take(held.len() as int)) by {
        assert((held + input).take(held.len() as int) =~= held);
    }
    assert(input =~= air.skip(held.len() as int)) by {
        assert((held + input).skip(held.len() as int) =~= input);
    }
    match s {
        DecoderView::Empty => {},
        DecoderView::Sync { count, last } => {
            lemma_start(cfg, f, flags);
            assert(air.skip(0) =~= air);
            assert(input[0] == stream[body + 0 + 0]);
            let start = state_at(cfg, f, flags, 0);
            assert(advance(cfg, s, input[0]) == advance(cfg, start, input[0]));
            lemma_rest_found(cfg, f, flags, 0);
        },
        _ => {
            lemma_state_of_window(cfg, f, flags, s);
            lemma_rest_found(cfg, f, flags, held.len());
        },
    }
}

/// From a machine on course the frame comes out, and nothing else.
proof fn lemma_scan(
    cfg: ConfigView,
    f: FrameView,
    flags: Seq<bool>,
    stream: Seq<bool>,
    body: int,
    s: DecoderView,
    input: Seq<bool>,
)
    requires
        cfg.wf(),
        fits(cfg, f),
        flags.len() == 3,
        8 <= body,
        stream.len() == body + on_air(cfg, f, flags).len(),
        stream.skip(body) == on_air(cfg, f, flags),
        forall|i: int| body - 8 <= i < body ==> #[trigger] stream[i] != stream[i + 1],
        none_valid_before(cfg, stream, body),
        starts_end_within(cfg, stream, body),
        on_course(cfg, stream, body, s, input),
    ensures
        decode(cfg, s, input) == (DecoderView::Empty, seq![f]),
    decreases s.held(cfg) + input.len(), input.len(),
{
    let at = window_start(cfg, s, stream.len(), input);
    lemma_lengths(cfg, f, flags);
    if at == body {
        assert(stream[body - 1] != stream[body - 1 + 1]);
        lemma_at_the_frame(cfg, f, flags, stream, body, s, input);
    } else {
        lemma_more_to_read(cfg, stream, body, s, input);
        let bit = input[0];
        lemma_advance_held(cfg, s, bit);
        lemma_course_kept(cfg, stream, body, s, input);
        match advance(cfg, s, bit) {
            Step::Next(next, frame) => {
                if frame.is_some() {
                    // a frame before the frame: there is none
                    lemma_no_frame_on_the_way(cfg, stream, body, s, input);
                } else {
                    lemma_decode_next(cfg, s, input, next);
                    lemma_scan(cfg, f, flags, stream, body, next, input.skip(1));
                }
            },
            Step::Rewind(buffer) => {
                lemma_scan(
                    cfg,
                    f,
                    flags,
                    stream,
                    body,
                    rewound(cfg, buffer).0,
                    rewound(cfg, buffer).1 + input.skip(1),
                );
            },
        }
    }
}

/// The first frame is found, whatever the layout. The bits of a frame that
/// fits come out as that frame, behind whatever bits stand before them, as
/// long as no start before the frame has a valid stretch, and none that gets
/// as far as its payload lays claim to more bits than there are: such a start
/// would still be waiting for its payload when the bits end. Nothing else
/// comes out, and the deframer is left empty.
pub proof fn lemma_first_frame_found(
    cfg: ConfigView,
    before: Seq<bool>,
    f: FrameView,
    flags: Seq<bool>,
)
    requires
        cfg.wf(),
        fits(cfg, f),
        flags.len() == 3,
        none_valid_before(cfg, before + encoding(cfg, f, flags), before.len() as int + 8),
        starts_end_within(cfg, before + encoding(cfg, f, flags), before.len() as int + 8),
    ensures
        decode(cfg, DecoderView::Empty, before + encoding(cfg, f, flags)) == (
            DecoderView::Empty,
            seq![f],
        ),
{
    let stream = before + encoding(cfg, f, flags);
    let body = before.len() as int + 8;
    let air = on_air(cfg, f, flags);
    lemma_lengths(cfg, f, flags);
    assert(stream.skip(body) =~= air);
    assert forall|i: int| body - 8 <= i < body implies #[trigger] stream[i] != stream[i + 1] by {
        let k = i - before.len();
        assert(stream[i] == with_preamble(air)[k]);
        assert(stream[i + 1] == with_preamble(air)[k + 1]);
    }
    assert(stream.skip(0) =~= stream);
    assert(Seq::<bool>::empty() + stream =~= stream);
    lemma_scan(cfg, f, flags, stream, body, DecoderView::Empty, stream);
}

/// The first frame is found where the layout fixes the payload length: the
/// bits of a frame that fits come out as that frame, behind whatever bits
/// stand before them, as long as no stretch that starts before the frame is
/// itself framed as the layout asks with a CRC that holds. Nothing else comes
/// out, and the deframer is left empty.
pub proof fn lemma_first_frame_found_with_fixed_length(
    cfg: ConfigView,
    before: Seq<bool>,
    f: FrameView,
    flags: Seq<bool>,
)
    requires
        cfg.wf(),
        cfg.payload_len.is_some(),
        fits(cfg, f),
        flags.len() == 3,
        forall|at: int|
            0 <= at < before.len() + 8 ==> !valid_at(cfg, before + encoding(cfg, f, flags), at),
    ensures
        decode(cfg, DecoderView::Empty, before + encoding(cfg, f, flags)) == (
            DecoderView::Empty,
            seq![f],
        ),
{
    let stream = before + encoding(cfg, f, flags);
    let body = before.len() as int + 8;
    lemma_lengths(cfg, f, flags);
    assert forall|at: int| 0 <= at < body && #[trigger] opens_at(cfg, stream, at) implies at
        + claim(cfg, stream, at) <= stream.len() by {
        if cfg.shockburst {
            let head = zeros(cfg.padding_bits()) + stream.subrange(
                at,
                at + 8 * cfg.address_len + cfg.header_bits(),
            );
            let from = cfg.address_end() as int;
            assert(head.subrange(from, from + 6) =~= stream.subrange(
                at + 8 * cfg.address_len,
                at + 8 * cfg.address_len + 6,
            ));
        }
    }
    lemma_first_frame_found(cfg, before, f, flags);
}

} // verus!
