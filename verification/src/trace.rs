//! The states that the bits of one frame lead through.

use vstd::prelude::*;
use crate::bits::{
    be_value, bits_to_bytes, bytes_to_bits, zeros, lemma_bits_of_concat, lemma_length_field_value,
    lemma_pack_unpack,
};
use crate::checksum::{crc16, crc_bits};
use crate::config::ConfigView;
use crate::frame::{with_preamble, FrameView};
use crate::invariants::lemma_expected_moves_on;
use crate::model::{
    advance, decode, emitted, fits, frame_of, hunting, mismatch, starts_with, still_expected,
    DecoderView, Step,
};

verus! {

/// The control field sent for `f`: its length bits and then `flags`, the two
/// bits of the packet id and the no-acknowledge flag, under Enhanced
/// ShockBurst; else nothing.
pub open spec fn control_field(cfg: ConfigView, f: FrameView, flags: Seq<bool>) -> Seq<bool> {
    if cfg.shockburst {
        f.length_field() + flags
    } else {
        Seq::empty()
    }
}

/// What the CRC of `f` sent with `flags` covers: the padding, the address,
/// the control field and the payload.
pub open spec fn covered(cfg: ConfigView, f: FrameView, flags: Seq<bool>) -> Seq<bool> {
    zeros(cfg.padding_bits()) + bytes_to_bits(f.address) + control_field(cfg, f, flags) + bytes_to_bits(
        f.payload,
    )
}

/// The sixteen CRC bits sent for `f`.
pub open spec fn trailer(cfg: ConfigView, f: FrameView, flags: Seq<bool>) -> Seq<bool> {
    crc_bits(crc16(cfg.crc_init(), bits_to_bytes(covered(cfg, f, flags))))
}

/// The receive buffer after all bits of `f`.
pub open spec fn full_buffer(cfg: ConfigView, f: FrameView, flags: Seq<bool>) -> Seq<bool> {
    covered(cfg, f, flags) + trailer(cfg, f, flags)
}

/// The bits sent for `f` behind the preamble.
pub open spec fn on_air(cfg: ConfigView, f: FrameView, flags: Seq<bool>) -> Seq<bool> {
    full_buffer(cfg, f, flags).skip(cfg.padding_bits() as int)
}

/// The bits sent for `f` under `cfg`.
pub open spec fn encoding(cfg: ConfigView, f: FrameView, flags: Seq<bool>) -> Seq<bool> {
    with_preamble(on_air(cfg, f, flags))
}

/// The bits of `f` behind the preamble and before the CRC.
pub open spec fn body_bits(cfg: ConfigView, f: FrameView) -> nat {
    8 * f.address.len() + cfg.header_bits() + 8 * f.payload.len()
}

/// The state after the first `k` bits of `on_air(cfg, f, flags)`, for `k` up to the
/// last bit but one.
pub open spec fn state_at(cfg: ConfigView, f: FrameView, flags: Seq<bool>, k: nat) -> DecoderView {
    let buffer = full_buffer(cfg, f, flags).take((cfg.padding_bits() + k) as int);
    if k < 8 * f.address.len() {
        DecoderView::RecvAddr { buffer, expected: still_expected(cfg.address_prefix, k as int) }
    } else if k < 8 * f.address.len() + cfg.header_bits() {
        DecoderView::RecvHeader {
            buffer,
            expected: still_expected(cfg.length_field(), k - 8 * f.address.len()),
        }
    } else if k < body_bits(cfg, f) {
        DecoderView::RecvPayload { end: cfg.payload_end(f.payload.len()), buffer }
    } else {
        DecoderView::CheckCrc {
            buffer,
            expected: trailer(cfg, f, flags).skip(k - body_bits(cfg, f)),
        }
    }
}

/// A frame of the sizes of the layout `cfg`, stamped with its channel.
pub open spec fn shaped(cfg: ConfigView, f: FrameView) -> bool {
    &&& f.channel == cfg.channel
    &&& f.address.len() == cfg.address_len
    &&& 1 <= f.payload.len() <= 32
    &&& cfg.payload_len matches Some(p) ==> f.payload.len() == p
}

/// The first `m` address bits of `f` agree with the configured prefix, as far
/// as it reaches.
pub open spec fn agrees(cfg: ConfigView, f: FrameView, m: nat) -> bool {
    forall|i: int|
        0 <= i < m && i < cfg.address_prefix.len() && i < 8 * f.address.len() ==> bytes_to_bits(
            f.address,
        )[i] == #[trigger] cfg.address_prefix[i]
}

/// A frame fits a layout when it has its shape and its address agrees with
/// the prefix throughout.
pub proof fn lemma_fits(cfg: ConfigView, f: FrameView)
    ensures
        fits(cfg, f) <==> shaped(cfg, f) && agrees(cfg, f, 8 * f.address.len()),
        forall|m: nat| fits(cfg, f) ==> #[trigger] agrees(cfg, f, m),
{
    if fits(cfg, f) {
        assert(agrees(cfg, f, 8 * f.address.len()));
    }
    if shaped(cfg, f) && agrees(cfg, f, 8 * f.address.len()) {
        assert(starts_with(f.address, cfg.address_prefix));
    }
}

/// `encoding` is what the encoders of a frame produce; their flags are
/// zero.
pub proof fn lemma_encoding(cfg: ConfigView, f: FrameView, flags: Seq<bool>)
    ensures
        !cfg.shockburst ==> encoding(cfg, f, flags) == f.fixed_encoding(),
        cfg.shockburst ==> encoding(cfg, f, zeros(3)) == f.shockburst_encoding(),
{
    if cfg.shockburst {
        assert(covered(cfg, f, zeros(3)) =~= f.shockburst_buffer());
    } else {
        lemma_bits_of_concat(f.address, f.payload);
        lemma_pack_unpack(f.address + f.payload);
        assert(covered(cfg, f, flags) =~= bytes_to_bits(f.address + f.payload));
        assert(on_air(cfg, f, flags) =~= bytes_to_bits(f.address) + bytes_to_bits(f.payload)
            + trailer(cfg, f, flags));
    }
}

/// The lengths of the parts of a frame that fits.
pub proof fn lemma_lengths(cfg: ConfigView, f: FrameView, flags: Seq<bool>)
    requires
        flags.len() == 3,
        cfg.wf(),
        shaped(cfg, f),
    ensures
        covered(cfg, f, flags).len() == cfg.padding_bits() + body_bits(cfg, f),
        covered(cfg, f, flags).len() == cfg.payload_end(f.payload.len()),
        trailer(cfg, f, flags).len() == 16,
        on_air(cfg, f, flags).len() == body_bits(cfg, f) + 16,
        control_field(cfg, f, flags).len() == cfg.header_bits(),
        f.length_field().len() == 6,
        cfg.payload_len.is_some() ==> cfg.length_field() == f.length_field(),
        be_value(f.length_field()) == f.payload.len(),
        8 * f.address.len() == 8 * cfg.address_len,
{
    lemma_length_field_value(f.payload.len() as u8);
    assert((f.payload.len() % 256) as u8 == f.payload.len() as u8);
}

/// A bit that does no more than move the machine on is dropped from the
/// input.
pub proof fn lemma_decode_next(
    cfg: ConfigView,
    s: DecoderView,
    input: Seq<bool>,
    next: DecoderView,
)
    requires
        input.len() > 0,
        advance(cfg, s, input[0]) == Step::Next(next, None),
    ensures
        decode(cfg, s, input) == decode(cfg, next, input.skip(1)),
{
    let tail = decode(cfg, next, input.skip(1));
    assert(emitted(None) + tail.1 =~= tail.1);
}

/// The buffer grows by the next bit on the air.
proof fn lemma_buffer_grows(cfg: ConfigView, f: FrameView, flags: Seq<bool>, k: nat)
    requires
        flags.len() == 3,
        k < on_air(cfg, f, flags).len(),
    ensures
        full_buffer(cfg, f, flags).take((cfg.padding_bits() + k) as int).push(on_air(cfg, f, flags)[k as int])
            == full_buffer(cfg, f, flags).take((cfg.padding_bits() + k + 1) as int),
{
    let whole = full_buffer(cfg, f, flags);
    let pad = cfg.padding_bits();
    assert(whole.take((pad + k) as int).push(on_air(cfg, f, flags)[k as int]) =~= whole.take(
        (pad + k + 1) as int,
    ));
}

proof fn lemma_step_address(cfg: ConfigView, f: FrameView, flags: Seq<bool>, k: nat)
    requires
        flags.len() == 3,
        cfg.wf(),
        shaped(cfg, f),
        agrees(cfg, f, k + 1),
        k < 8 * f.address.len(),
    ensures
        advance(cfg, state_at(cfg, f, flags, k), on_air(cfg, f, flags)[k as int]) == Step::Next(
            state_at(cfg, f, flags, k + 1),
            None,
        ),
{
    lemma_lengths(cfg, f, flags);
    lemma_buffer_grows(cfg, f, flags, k);
    let bit = on_air(cfg, f, flags)[k as int];
    assert(bit == bytes_to_bits(f.address)[k as int]);
    let expected = still_expected(cfg.address_prefix, k as int);
    if k < cfg.address_prefix.len() {
        assert(expected[0] == cfg.address_prefix[k as int]);
    }
    assert(!mismatch(expected, bit));
    lemma_expected_moves_on(cfg.address_prefix, k as int, bit);
    if k + 1 == 8 * f.address.len() {
        assert(cfg.length_field().skip(0) =~= cfg.length_field());
    }
}

proof fn lemma_step_header(cfg: ConfigView, f: FrameView, flags: Seq<bool>, k: nat)
    requires
        flags.len() == 3,
        cfg.wf(),
        shaped(cfg, f),
        8 * f.address.len() <= k < 8 * f.address.len() + cfg.header_bits(),
    ensures
        advance(cfg, state_at(cfg, f, flags, k), on_air(cfg, f, flags)[k as int]) == Step::Next(
            state_at(cfg, f, flags, k + 1),
            None,
        ),
{
    lemma_lengths(cfg, f, flags);
    lemma_buffer_grows(cfg, f, flags, k);
    let j = k - 8 * f.address.len();
    let bit = on_air(cfg, f, flags)[k as int];
    assert(bit == control_field(cfg, f, flags)[j]);
    let expected = still_expected(cfg.length_field(), j);
    if j < cfg.length_field().len() {
        assert(expected[0] == cfg.length_field()[j]);
        assert(control_field(cfg, f, flags)[j] == f.length_field()[j]);
    }
    assert(!mismatch(expected, bit));
    lemma_expected_moves_on(cfg.length_field(), j, bit);
    if j + 1 == 9 {
        let data = full_buffer(cfg, f, flags).take((cfg.padding_bits() + k + 1) as int);
        assert(data.subrange(cfg.address_end() as int, cfg.address_end() as int + 6)
            =~= f.length_field());
    }
}

proof fn lemma_step_payload(cfg: ConfigView, f: FrameView, flags: Seq<bool>, k: nat)
    requires
        flags.len() == 3,
        cfg.wf(),
        shaped(cfg, f),
        8 * f.address.len() + cfg.header_bits() <= k < body_bits(cfg, f),
    ensures
        advance(cfg, state_at(cfg, f, flags, k), on_air(cfg, f, flags)[k as int]) == Step::Next(
            state_at(cfg, f, flags, k + 1),
            None,
        ),
{
    lemma_lengths(cfg, f, flags);
    lemma_buffer_grows(cfg, f, flags, k);
    if k + 1 == body_bits(cfg, f) {
        let data = full_buffer(cfg, f, flags).take((cfg.padding_bits() + k + 1) as int);
        assert(data =~= covered(cfg, f, flags));
        assert(trailer(cfg, f, flags).skip(0) =~= trailer(cfg, f, flags));
    }
}

proof fn lemma_step_crc(cfg: ConfigView, f: FrameView, flags: Seq<bool>, k: nat)
    requires
        flags.len() == 3,
        cfg.wf(),
        shaped(cfg, f),
        body_bits(cfg, f) <= k < body_bits(cfg, f) + 15,
    ensures
        advance(cfg, state_at(cfg, f, flags, k), on_air(cfg, f, flags)[k as int]) == Step::Next(
            state_at(cfg, f, flags, k + 1),
            None,
        ),
{
    lemma_lengths(cfg, f, flags);
    lemma_buffer_grows(cfg, f, flags, k);
    let j = k - body_bits(cfg, f);
    let bit = on_air(cfg, f, flags)[k as int];
    assert(bit == trailer(cfg, f, flags)[j]);
    assert(trailer(cfg, f, flags).skip(j).skip(1) =~= trailer(cfg, f, flags).skip(j + 1));
}

/// Every bit of a frame but the last moves the machine from one state of the
/// trace to the next and hands out nothing.
pub proof fn lemma_step(cfg: ConfigView, f: FrameView, flags: Seq<bool>, k: nat)
    requires
        flags.len() == 3,
        cfg.wf(),
        shaped(cfg, f),
        agrees(cfg, f, k + 1),
        k < body_bits(cfg, f) + 15,
    ensures
        advance(cfg, state_at(cfg, f, flags, k), on_air(cfg, f, flags)[k as int]) == Step::Next(
            state_at(cfg, f, flags, k + 1),
            None,
        ),
{
    if k < 8 * f.address.len() {
        lemma_step_address(cfg, f, flags, k);
    } else if k < 8 * f.address.len() + cfg.header_bits() {
        lemma_step_header(cfg, f, flags, k);
    } else if k < body_bits(cfg, f) {
        lemma_step_payload(cfg, f, flags, k);
    } else {
        lemma_step_crc(cfg, f, flags, k);
    }
}

/// The last bit of a frame hands the frame out.
pub proof fn lemma_last_step(cfg: ConfigView, f: FrameView, flags: Seq<bool>)
    requires
        flags.len() == 3,
        cfg.wf(),
        shaped(cfg, f),
    ensures
        advance(
            cfg,
            state_at(cfg, f, flags, body_bits(cfg, f) + 15),
            on_air(cfg, f, flags)[body_bits(cfg, f) as int + 15],
        ) == Step::Next(DecoderView::Empty, Some(f)),
{
    let k = body_bits(cfg, f) + 15;
    lemma_lengths(cfg, f, flags);
    lemma_buffer_grows(cfg, f, flags, k);
    let whole = full_buffer(cfg, f, flags);
    let bit = on_air(cfg, f, flags)[k as int];
    assert(bit == trailer(cfg, f, flags)[15]);
    assert(whole.take((cfg.padding_bits() + k + 1) as int) =~= whole);
    assert(whole.subrange(cfg.padding_bits() as int, cfg.address_end() as int) =~= bytes_to_bits(
        f.address,
    ));
    assert(whole.subrange(cfg.header_end() as int, whole.len() - 16) =~= bytes_to_bits(f.payload));
    lemma_pack_unpack(f.address);
    lemma_pack_unpack(f.payload);
    assert(frame_of(cfg, whole) == f);
}

/// Input that starts with the first `m` bits of a frame leads to the `m`-th
/// state of its trace, as long as the address agrees with the prefix.
pub proof fn lemma_trace(
    cfg: ConfigView,
    f: FrameView,
    flags: Seq<bool>,
    input: Seq<bool>,
    m: nat,
)
    requires
        flags.len() == 3,
        cfg.wf(),
        shaped(cfg, f),
        agrees(cfg, f, m),
        m <= body_bits(cfg, f) + 15,
        m <= input.len(),
        forall|i: int| 0 <= i < m ==> input[i] == on_air(cfg, f, flags)[i],
    ensures
        decode(cfg, state_at(cfg, f, flags, 0), input) == decode(
            cfg,
            state_at(cfg, f, flags, m),
            input.skip(m as int),
        ),
    decreases m,
{
    if m == 0 {
        assert(input.skip(0) =~= input);
    } else {
        let k = (m - 1) as nat;
        lemma_trace(cfg, f, flags, input, k);
        lemma_step(cfg, f, flags, k);
        let left = input.skip(k as int);
        assert(left[0] == on_air(cfg, f, flags)[k as int]);
        lemma_decode_next(cfg, state_at(cfg, f, flags, k), left, state_at(cfg, f, flags, m));
        assert(left.skip(1) =~= input.skip(m as int));
    }
}

/// The trace of a frame starts where a preamble ends.
pub proof fn lemma_start(cfg: ConfigView, f: FrameView, flags: Seq<bool>)
    requires
        flags.len() == 3,
        cfg.wf(),
        shaped(cfg, f),
    ensures
        state_at(cfg, f, flags, 0) == (DecoderView::RecvAddr {
            buffer: zeros(cfg.padding_bits()),
            expected: cfg.address_prefix,
        }),
        forall|k: nat| k <= body_bits(cfg, f) + 15 ==> (#[trigger] state_at(cfg, f, flags, k)).held(cfg) == k,
{
    lemma_lengths(cfg, f, flags);
    assert(full_buffer(cfg, f, flags).take(cfg.padding_bits() as int) =~= zeros(cfg.padding_bits()));
    assert(cfg.address_prefix.skip(0) =~= cfg.address_prefix);
}

/// The preamble brings a hunting machine to the start of an address.
pub proof fn lemma_preamble(cfg: ConfigView, s: DecoderView, body: Seq<bool>)
    requires
        body.len() > 0,
        hunting(s, body[0]),
    ensures
        decode(cfg, s, with_preamble(body)) == decode(
            cfg,
            DecoderView::RecvAddr {
                buffer: zeros(cfg.padding_bits()),
                expected: cfg.address_prefix,
            },
            body,
        ),
{
    let first = body[0];
    let input = with_preamble(body);
    let c1 = DecoderView::Sync { count: 1, last: first };
    let c2 = DecoderView::Sync { count: 2, last: !first };
    let c3 = DecoderView::Sync { count: 3, last: first };
    let c4 = DecoderView::Sync { count: 4, last: !first };
    let c5 = DecoderView::Sync { count: 5, last: first };
    let c6 = DecoderView::Sync { count: 6, last: !first };
    let c7 = DecoderView::Sync { count: 7, last: first };
    let c8 = DecoderView::Sync { count: 8, last: !first };
    lemma_decode_next(cfg, s, input, c1);
    lemma_decode_next(cfg, c1, input.skip(1), c2);
    assert(input.skip(1).skip(1) =~= input.skip(2));
    lemma_decode_next(cfg, c2, input.skip(2), c3);
    assert(input.skip(2).skip(1) =~= input.skip(3));
    lemma_decode_next(cfg, c3, input.skip(3), c4);
    assert(input.skip(3).skip(1) =~= input.skip(4));
    lemma_decode_next(cfg, c4, input.skip(4), c5);
    assert(input.skip(4).skip(1) =~= input.skip(5));
    lemma_decode_next(cfg, c5, input.skip(5), c6);
    assert(input.skip(5).skip(1) =~= input.skip(6));
    lemma_decode_next(cfg, c6, input.skip(6), c7);
    assert(input.skip(6).skip(1) =~= input.skip(7));
    lemma_decode_next(cfg, c7, input.skip(7), c8);
    assert(input.skip(7).skip(1) =~= body);
    // the first bit of the body is taken as the first bit of an address
    let start = DecoderView::RecvAddr {
        buffer: zeros(cfg.padding_bits()),
        expected: cfg.address_prefix,
    };
    assert(advance(cfg, c8, body[0]) == advance(cfg, start, body[0]));
}

/// From any state of its trace on, the rest of the bits of a frame that fits
/// hand out that frame and nothing else, and leave the machine empty.
pub proof fn lemma_rest_found(cfg: ConfigView, f: FrameView, flags: Seq<bool>, k: nat)
    requires
        flags.len() == 3,
        cfg.wf(),
        fits(cfg, f),
        k <= body_bits(cfg, f) + 15,
    ensures
        decode(cfg, state_at(cfg, f, flags, k), on_air(cfg, f, flags).skip(k as int)) == (
            DecoderView::Empty,
            seq![f],
        ),
{
    let body = on_air(cfg, f, flags);
    let last = body_bits(cfg, f) + 15;
    lemma_fits(cfg, f);
    lemma_lengths(cfg, f, flags);
    lemma_trace(cfg, f, flags, body, k);
    lemma_trace(cfg, f, flags, body, last);
    lemma_last_step(cfg, f, flags);
    let left = body.skip(last as int);
    assert(left.len() == 1);
    assert(left[0] == body[last as int]);
    assert(left.skip(1) =~= Seq::<bool>::empty());
    assert(decode(cfg, DecoderView::Empty, left.skip(1)) == (
        DecoderView::Empty,
        Seq::<FrameView>::empty(),
    ));
    assert(emitted(Some(f)) + Seq::<FrameView>::empty() =~= seq![f]);
}

/// The bits of a frame that fits, read by a hunting machine, hand out that
/// frame and nothing else, and leave the machine empty.
pub proof fn lemma_frame_found(cfg: ConfigView, s: DecoderView, f: FrameView, flags: Seq<bool>)
    requires
        flags.len() == 3,
        cfg.wf(),
        fits(cfg, f),
        hunting(s, on_air(cfg, f, flags)[0]),
    ensures
        decode(cfg, s, encoding(cfg, f, flags)) == (DecoderView::Empty, seq![f]),
{
    let body = on_air(cfg, f, flags);
    lemma_fits(cfg, f);
    lemma_lengths(cfg, f, flags);
    lemma_preamble(cfg, s, body);
    lemma_start(cfg, f, flags);
    lemma_rest_found(cfg, f, flags, 0);
    assert(body.skip(0) =~= body);
}

} // verus!
