//! What holds of the deframer on every input.

use vstd::prelude::*;
use crate::bits::{bits_to_bytes, bytes_to_bits, zeros, lemma_unpack_pack};
use crate::checksum::{
    crc16_bits, crc_bits, lemma_crc_bits_tell_apart, lemma_crc_detects_one_bit,
    lemma_crc_is_bitwise, lemma_crc_of_concat, lemma_seven_zero_bits, CRC_INIT_FIXED,
};
use crate::config::ConfigView;
use crate::deframer::{worked, NrfDeframer};
use crate::frame::{with_preamble, FrameView};
use crate::invariants::{lemma_advance_ok, lemma_decode_concat, lemma_decode_ok};
use crate::model::{
    admissible, advance, decode, fits, hunting, least_frame_bits, lemma_advance_held, rewound,
    starts_with, DecoderView, Step,
};
use crate::provenance::checked;
use crate::scan::{claim, lemma_first_frame_found_with_fixed_length, valid_at};
use crate::trace::{
    agrees, body_bits, covered, encoding, lemma_encoding, lemma_fits, lemma_frame_found,
    lemma_lengths, lemma_preamble, lemma_start, lemma_trace, on_air, shaped, state_at, trailer,
};

verus! {

/// Round trip without a control field: the bits of a frame that fits the
/// layout, read by a fresh deframer, hand out that frame and no other, and
/// leave the deframer as it was.
pub proof fn lemma_round_trip_fixed(cfg: ConfigView, f: FrameView)
    requires
        cfg.wf(),
        !cfg.shockburst,
        fits(cfg, f),
    ensures
        decode(cfg, DecoderView::Empty, f.fixed_encoding()) == (DecoderView::Empty, seq![f]),
{
    lemma_encoding(cfg, f, zeros(3));
    lemma_frame_found(cfg, DecoderView::Empty, f, zeros(3));
}

/// Round trip under Enhanced ShockBurst, whether the layout fixes the payload
/// length or reads it from the control field: the bits of a frame that fits,
/// read by a fresh deframer, hand out that frame and no other, and leave the
/// deframer as it was.
pub proof fn lemma_round_trip_shockburst(cfg: ConfigView, f: FrameView)
    requires
        cfg.wf(),
        cfg.shockburst,
        fits(cfg, f),
    ensures
        decode(cfg, DecoderView::Empty, f.shockburst_encoding()) == (
            DecoderView::Empty,
            seq![f],
        ),
{
    lemma_encoding(cfg, f, zeros(3));
    lemma_frame_found(cfg, DecoderView::Empty, f, zeros(3));
}

/// The control bits that the deframer does not look at: a frame that fits
/// comes out whatever packet id and no-acknowledge flag it is sent with.
pub proof fn lemma_round_trip_any_flags(cfg: ConfigView, f: FrameView, flags: Seq<bool>)
    requires
        cfg.wf(),
        fits(cfg, f),
        flags.len() == 3,
    ensures
        decode(cfg, DecoderView::Empty, encoding(cfg, f, flags)) == (
            DecoderView::Empty,
            seq![f],
        ),
{
    lemma_frame_found(cfg, DecoderView::Empty, f, flags);
}

/// A frame is found behind any bits that leave the deframer hunting: if the
/// bits of `before` end with the deframer waiting for a preamble, the last bit
/// equal to the first bit of the frame's preamble, then the frame comes out
/// behind whatever `before` gave, and the deframer is left empty.
pub proof fn lemma_round_trip_behind(
    cfg: ConfigView,
    s: DecoderView,
    before: Seq<bool>,
    f: FrameView,
    flags: Seq<bool>,
)
    requires
        cfg.wf(),
        fits(cfg, f),
        flags.len() == 3,
        hunting(decode(cfg, s, before).0, encoding(cfg, f, flags)[0]),
    ensures
        decode(cfg, s, before + encoding(cfg, f, flags)) == (
            DecoderView::Empty,
            decode(cfg, s, before).1 + seq![f],
        ),
{
    lemma_fits(cfg, f);
    lemma_lengths(cfg, f, flags);
    lemma_decode_concat(cfg, s, before, encoding(cfg, f, flags));
    assert(encoding(cfg, f, flags)[0] == on_air(cfg, f, flags)[0]);
    lemma_frame_found(cfg, decode(cfg, s, before).0, f, flags);
}

/// Two frames sent one right behind the other both come out, in order.
pub proof fn lemma_frames_in_a_row(
    cfg: ConfigView,
    f: FrameView,
    flags: Seq<bool>,
    g: FrameView,
    other_flags: Seq<bool>,
)
    requires
        cfg.wf(),
        fits(cfg, f),
        fits(cfg, g),
        flags.len() == 3,
        other_flags.len() == 3,
    ensures
        decode(cfg, DecoderView::Empty, encoding(cfg, f, flags) + encoding(cfg, g, other_flags)) == (
            DecoderView::Empty,
            seq![f, g],
        ),
{
    lemma_frame_found(cfg, DecoderView::Empty, f, flags);
    lemma_round_trip_behind(cfg, DecoderView::Empty, encoding(cfg, f, flags), g, other_flags);
    assert(seq![f] + seq![g] =~= seq![f, g]);
}

/// Prefix filter: whatever the bits, from whatever state, the address of
/// every frame handed out starts with the configured prefix.
pub proof fn lemma_prefix_filter(cfg: ConfigView, s: DecoderView, input: Seq<bool>)
    requires
        cfg.wf(),
        s.wf(cfg),
    ensures
        forall|i: int|
            0 <= i < decode(cfg, s, input).1.len() ==> starts_with(
                (#[trigger] decode(cfg, s, input).1[i]).address,
                cfg.address_prefix,
            ),
{
    lemma_decode_ok(cfg, s, input);
    let frames = decode(cfg, s, input).1;
    assert forall|i: int| 0 <= i < frames.len() implies starts_with(
        (#[trigger] frames[i]).address,
        cfg.address_prefix,
    ) by {
        assert(admissible(cfg, frames[i]));
    }
}

/// Length bound: whatever the bits, from whatever state, no frame handed out
/// has a payload of more than 32 bytes, nor an empty one, and every address
/// has the configured size.
pub proof fn lemma_length_bound(cfg: ConfigView, s: DecoderView, input: Seq<bool>)
    requires
        cfg.wf(),
        s.wf(cfg),
    ensures
        forall|i: int|
            0 <= i < decode(cfg, s, input).1.len() ==> {
                let f = #[trigger] decode(cfg, s, input).1[i];
                &&& 1 <= f.payload.len() <= 32
                &&& f.address.len() == cfg.address_len
            },
{
    lemma_decode_ok(cfg, s, input);
    let frames = decode(cfg, s, input).1;
    assert forall|i: int| 0 <= i < frames.len() implies {
        let f = #[trigger] frames[i];
        &&& 1 <= f.payload.len() <= 32
        &&& f.address.len() == cfg.address_len
    } by {
        assert(admissible(cfg, frames[i]));
    }
}

/// No frame comes out of fewer bits than a frame takes, the bits held in the
/// receive buffer counted in.
pub proof fn lemma_too_few_bits(cfg: ConfigView, s: DecoderView, input: Seq<bool>)
    requires
        cfg.wf(),
        s.wf(cfg),
        s.held(cfg) + input.len() < least_frame_bits(cfg),
    ensures
        decode(cfg, s, input).1 == Seq::<FrameView>::empty(),
    decreases s.held(cfg) + input.len(), input.len(),
{
    if input.len() > 0 {
        lemma_advance_ok(cfg, s, input[0]);
        lemma_advance_held(cfg, s, input[0]);
        match advance(cfg, s, input[0]) {
            Step::Next(next, frame) => {
                assert(frame.is_none());
                lemma_too_few_bits(cfg, next, input.skip(1));
                assert(Seq::<FrameView>::empty() + Seq::<FrameView>::empty()
                    =~= Seq::<FrameView>::empty());
            },
            Step::Rewind(buffer) => {
                lemma_too_few_bits(
                    cfg,
                    rewound(cfg, buffer).0,
                    rewound(cfg, buffer).1 + input.skip(1),
                );
            },
        }
    }
}

/// Bits that start like a frame of a layout with a fixed payload length, are
/// as many as that frame has, and fail a check on the way, hand out nothing:
/// what is left after the rewind is less than a frame.
proof fn lemma_failed_frame_yields_nothing(
    cfg: ConfigView,
    f: FrameView,
    flags: Seq<bool>,
    input: Seq<bool>,
    m: nat,
)
    requires
        flags.len() == 3,
        cfg.wf(),
        cfg.payload_len.is_some(),
        shaped(cfg, f),
        agrees(cfg, f, m),
        m <= body_bits(cfg, f) + 15,
        input.len() == body_bits(cfg, f) + 16,
        forall|i: int| 0 <= i < m ==> input[i] == on_air(cfg, f, flags)[i],
        advance(cfg, state_at(cfg, f, flags, m), input[m as int]) is Rewind,
    ensures
        decode(cfg, DecoderView::Empty, with_preamble(input)).1 == Seq::<FrameView>::empty(),
{
    lemma_lengths(cfg, f, flags);
    lemma_start(cfg, f, flags);
    lemma_preamble(cfg, DecoderView::Empty, input);
    lemma_trace(cfg, f, flags, input, m);
    let s = state_at(cfg, f, flags, m);
    let left = input.skip(m as int);
    assert(left[0] == input[m as int]);
    lemma_advance_held(cfg, s, left[0]);
    let buffer = advance(cfg, s, left[0])->Rewind_0;
    lemma_too_few_bits(cfg, rewound(cfg, buffer).0, rewound(cfg, buffer).1 + left.skip(1));
}

/// `bits` with bit `i` turned over.
pub open spec fn flipped(bits: Seq<bool>, i: int) -> Seq<bool> {
    bits.update(i, !bits[i])
}

/// Noise in the CRC: where the layout fixes the payload length, the bits of a
/// frame with any one of its sixteen CRC bits turned over, read by a fresh
/// deframer, hand out no frame.
pub proof fn lemma_broken_crc_dropped(cfg: ConfigView, f: FrameView, flags: Seq<bool>, j: nat)
    requires
        flags.len() == 3,
        cfg.wf(),
        cfg.payload_len.is_some(),
        fits(cfg, f),
        j < 16,
    ensures
        decode(
            cfg,
            DecoderView::Empty,
            flipped(encoding(cfg, f, flags), (8 + body_bits(cfg, f) + j) as int),
        ).1 == Seq::<FrameView>::empty(),
{
    lemma_fits(cfg, f);
    lemma_lengths(cfg, f, flags);
    let m = body_bits(cfg, f) + j;
    let input = flipped(on_air(cfg, f, flags), m as int);
    assert(flipped(encoding(cfg, f, flags), (8 + body_bits(cfg, f) + j) as int) =~= with_preamble(input));
    assert(on_air(cfg, f, flags)[m as int] == trailer(cfg, f, flags)[j as int]);
    assert(trailer(cfg, f, flags).skip(j as int)[0] == trailer(cfg, f, flags)[j as int]);
    lemma_failed_frame_yields_nothing(cfg, f, flags, input, m);
}

/// A frame sent with a CRC other than its own is dropped: where the layout
/// fixes the payload length, the bits of a frame followed by sixteen bits that
/// are not its CRC, read by a fresh deframer, hand out no frame. A payload bit
/// turned over is such a case: what is then sent are the bits of another frame
/// with the CRC of the first, which is not its own.
pub proof fn lemma_wrong_crc_dropped(
    cfg: ConfigView,
    f: FrameView,
    flags: Seq<bool>,
    crc: Seq<bool>,
)
    requires
        flags.len() == 3,
        cfg.wf(),
        cfg.payload_len.is_some(),
        fits(cfg, f),
        crc.len() == 16,
        crc != trailer(cfg, f, flags),
    ensures
        decode(
            cfg,
            DecoderView::Empty,
            with_preamble(on_air(cfg, f, flags).take(body_bits(cfg, f) as int) + crc),
        ).1 == Seq::<FrameView>::empty(),
{
    lemma_fits(cfg, f);
    lemma_lengths(cfg, f, flags);
    let own = trailer(cfg, f, flags);
    let body = on_air(cfg, f, flags).take(body_bits(cfg, f) as int);
    let input = body + crc;
    assert(exists|i: int| 0 <= i < 16 && crc[i] != own[i]) by {
        if forall|i: int| 0 <= i < 16 ==> crc[i] == own[i] {
            assert(crc =~= own);
        }
    }
    let j = first_difference(crc, own, 16);
    let m = body_bits(cfg, f) + j;
    assert(input[m as int] == crc[j as int]);
    assert(own.skip(j as int)[0] == own[j as int]);
    assert forall|i: int| 0 <= i < m implies input[i] == on_air(cfg, f, flags)[i] by {
        if i >= body_bits(cfg, f) {
            assert(input[i] == crc[i - body_bits(cfg, f)]);
            assert(on_air(cfg, f, flags)[i] == own[i - body_bits(cfg, f)]);
        }
    }
    lemma_failed_frame_yields_nothing(cfg, f, flags, input, m);
}

/// The CRC of a frame is computed bit by bit over what it covers.
pub proof fn lemma_trailer_is_bitwise(cfg: ConfigView, f: FrameView, flags: Seq<bool>)
    requires
        flags.len() == 3,
        cfg.wf(),
        shaped(cfg, f),
    ensures
        trailer(cfg, f, flags) == crc_bits(crc16_bits(cfg.crc_init(), covered(cfg, f, flags))),
{
    lemma_lengths(cfg, f, flags);
    lemma_unpack_pack(covered(cfg, f, flags));
    lemma_crc_is_bitwise(cfg.crc_init(), bits_to_bytes(covered(cfg, f, flags)));
}

/// Whatever the layout, the sixteen CRC bits of a frame are the
/// CRC-16/IBM-3740 of the bits that are sent between the preamble and the
/// CRC, computed bit by bit from 0xFFFF: the start value of Enhanced
/// ShockBurst makes up for the seven zero bits that lead its buffer.
pub proof fn lemma_crc_covers_the_air(cfg: ConfigView, f: FrameView, flags: Seq<bool>)
    requires
        flags.len() == 3,
        cfg.wf(),
        shaped(cfg, f),
    ensures
        trailer(cfg, f, flags) == crc_bits(
            crc16_bits(CRC_INIT_FIXED, on_air(cfg, f, flags).take(body_bits(cfg, f) as int)),
        ),
{
    lemma_lengths(cfg, f, flags);
    lemma_trailer_is_bitwise(cfg, f, flags);
    let sent = on_air(cfg, f, flags).take(body_bits(cfg, f) as int);
    let padding = zeros(cfg.padding_bits());
    assert(covered(cfg, f, flags) =~= padding + sent);
    lemma_crc_of_concat(cfg.crc_init(), padding, sent);
    if cfg.shockburst {
        lemma_seven_zero_bits();
        assert(padding =~= Seq::new(7, |i: int| false));
    } else {
        reveal_with_fuel(crc16_bits, 1);
    }
}

/// `f` with bit `k` of its payload turned over.
pub open spec fn with_payload_bit_flipped(f: FrameView, k: int) -> FrameView {
    FrameView {
        channel: f.channel,
        address: f.address,
        payload: bits_to_bytes(flipped(bytes_to_bits(f.payload), k)),
    }
}

/// A frame with a payload bit turned over is a frame that fits as well, and
/// what stands before the CRCs of the two differs in that one bit.
proof fn lemma_payload_bit_flipped(cfg: ConfigView, f: FrameView, flags: Seq<bool>, k: nat)
    requires
        flags.len() == 3,
        cfg.wf(),
        fits(cfg, f),
        k < 8 * f.payload.len(),
    ensures
        fits(cfg, with_payload_bit_flipped(f, k as int)),
        body_bits(cfg, with_payload_bit_flipped(f, k as int)) == body_bits(cfg, f),
        covered(cfg, with_payload_bit_flipped(f, k as int), flags) == flipped(
            covered(cfg, f, flags),
            (cfg.header_end() + k) as int,
        ),
{
    let g = with_payload_bit_flipped(f, k as int);
    let turned = flipped(bytes_to_bits(f.payload), k as int);
    lemma_unpack_pack(turned);
    lemma_lengths(cfg, f, flags);
    assert(bytes_to_bits(g.payload) == turned);
    assert(covered(cfg, g, flags) =~= flipped(
        covered(cfg, f, flags),
        (cfg.header_end() + k) as int,
    ));
}

/// The CRC tells a frame from the same frame with one payload bit turned
/// over.
pub proof fn lemma_crc_detects_payload_bit(cfg: ConfigView, f: FrameView, flags: Seq<bool>, k: nat)
    requires
        flags.len() == 3,
        cfg.wf(),
        fits(cfg, f),
        k < 8 * f.payload.len(),
    ensures
        trailer(cfg, with_payload_bit_flipped(f, k as int), flags) != trailer(cfg, f, flags),
{
    let g = with_payload_bit_flipped(f, k as int);
    lemma_payload_bit_flipped(cfg, f, flags, k);
    lemma_fits(cfg, f);
    lemma_fits(cfg, g);
    lemma_lengths(cfg, f, flags);
    lemma_trailer_is_bitwise(cfg, f, flags);
    lemma_trailer_is_bitwise(cfg, g, flags);
    lemma_crc_detects_one_bit(
        cfg.crc_init(),
        covered(cfg, f, flags),
        covered(cfg, g, flags),
        (cfg.header_end() + k) as int,
    );
    if trailer(cfg, g, flags) == trailer(cfg, f, flags) {
        lemma_crc_bits_tell_apart(
            crc16_bits(cfg.crc_init(), covered(cfg, g, flags)),
            crc16_bits(cfg.crc_init(), covered(cfg, f, flags)),
        );
    }
}

/// The bits of a frame with a payload bit turned over are those of the
/// frame with that payload, followed by the CRC of the first.
pub proof fn lemma_payload_flip_is_other_frame(
    cfg: ConfigView,
    f: FrameView,
    flags: Seq<bool>,
    k: nat,
)
    requires
        flags.len() == 3,
        cfg.wf(),
        fits(cfg, f),
        k < 8 * f.payload.len(),
    ensures
        fits(cfg, with_payload_bit_flipped(f, k as int)),
        flipped(
            encoding(cfg, f, flags),
            (8 + 8 * f.address.len() + cfg.header_bits() + k) as int,
        ) == with_preamble(
            on_air(cfg, with_payload_bit_flipped(f, k as int), flags).take(
                body_bits(cfg, with_payload_bit_flipped(f, k as int)) as int,
            ) + trailer(cfg, f, flags),
        ),
{
    let g = with_payload_bit_flipped(f, k as int);
    lemma_payload_bit_flipped(cfg, f, flags, k);
    lemma_lengths(cfg, f, flags);
    lemma_lengths(cfg, g, flags);
    let at = 8 * f.address.len() + cfg.header_bits() + k;
    let sent = on_air(cfg, g, flags).take(body_bits(cfg, g) as int) + trailer(cfg, f, flags);
    assert(flipped(on_air(cfg, f, flags), at as int) =~= sent) by {
        assert forall|i: int| 0 <= i < sent.len() implies flipped(
            on_air(cfg, f, flags),
            at as int,
        )[i] == sent[i] by {
            if i < body_bits(cfg, f) {
                assert(sent[i] == covered(cfg, g, flags)[cfg.padding_bits() + i]);
                assert(on_air(cfg, f, flags)[i] == covered(cfg, f, flags)[cfg.padding_bits() + i]);
            } else {
                assert(on_air(cfg, f, flags)[i] == trailer(cfg, f, flags)[i - body_bits(cfg, f)]);
            }
        }
    }
    assert(flipped(encoding(cfg, f, flags), (8 + at) as int) =~= with_preamble(sent));
}

/// Noise in the payload: where the layout fixes the payload length, the bits
/// of a frame with one payload bit turned over, read by a fresh deframer, hand
/// out no frame.
pub proof fn lemma_broken_payload_dropped(cfg: ConfigView, f: FrameView, flags: Seq<bool>, k: nat)
    requires
        flags.len() == 3,
        cfg.wf(),
        cfg.payload_len.is_some(),
        fits(cfg, f),
        k < 8 * f.payload.len(),
    ensures
        decode(
            cfg,
            DecoderView::Empty,
            flipped(
                encoding(cfg, f, flags),
                (8 + 8 * f.address.len() + cfg.header_bits() + k) as int,
            ),
        ).1 == Seq::<FrameView>::empty(),
{
    let g = with_payload_bit_flipped(f, k as int);
    lemma_crc_detects_payload_bit(cfg, f, flags, k);
    lemma_payload_flip_is_other_frame(cfg, f, flags, k);
    lemma_wrong_crc_dropped(cfg, g, flags, trailer(cfg, f, flags));
}

/// A frame with one of its CRC bits turned over has no CRC that holds.
proof fn lemma_broken_crc_is_not_valid(cfg: ConfigView, f: FrameView, flags: Seq<bool>, j: nat)
    requires
        cfg.wf(),
        cfg.payload_len matches Some(len) && len >= 1,
        fits(cfg, f),
        flags.len() == 3,
        j < 16,
    ensures
        !checked(cfg, flipped(on_air(cfg, f, flags), (body_bits(cfg, f) + j) as int)),
{
    lemma_fits(cfg, f);
    lemma_lengths(cfg, f, flags);
    let bits = flipped(on_air(cfg, f, flags), (body_bits(cfg, f) + j) as int);
    let buffer = zeros(cfg.padding_bits()) + bits;
    let crc = trailer(cfg, f, flags);
    // what the CRC covers is untouched, the CRC is not
    assert(buffer.take(buffer.len() - 16) =~= covered(cfg, f, flags));
    assert(buffer.skip(buffer.len() - 16)[j as int] == !crc[j as int]);
}

/// The stretch of a frame with one of its CRC bits turned over is not valid,
/// whatever follows it.
proof fn lemma_broken_stretch_is_not_valid(
    cfg: ConfigView,
    f: FrameView,
    flags: Seq<bool>,
    j: nat,
    behind: Seq<bool>,
)
    requires
        cfg.wf(),
        cfg.payload_len matches Some(len) && len >= 1,
        fits(cfg, f),
        flags.len() == 3,
        j < 16,
    ensures
        !valid_at(
            cfg,
            flipped(encoding(cfg, f, flags), (8 + body_bits(cfg, f) + j) as int) + behind,
            8,
        ),
{
    lemma_fits(cfg, f);
    lemma_lengths(cfg, f, flags);
    let stream = flipped(encoding(cfg, f, flags), (8 + body_bits(cfg, f) + j) as int) + behind;
    if cfg.shockburst {
        let from = 8 + 8 * cfg.address_len as int;
        assert(stream.subrange(from, from + 6) =~= f.length_field());
    }
    assert(claim(cfg, stream, 8) == body_bits(cfg, f) + 16);
    let bits = stream.subrange(8, 8 + claim(cfg, stream, 8) as int);
    assert(bits =~= flipped(on_air(cfg, f, flags), (body_bits(cfg, f) + j) as int));
    lemma_broken_crc_is_not_valid(cfg, f, flags, j);
}

/// Noise in the CRC, and what comes behind it: where the layout fixes the
/// payload length, the frame that follows a frame with one CRC bit turned over
/// comes out, and nothing else, as long as no stretch that starts before its
/// bits, other than that of the broken frame, is framed as the layout asks
/// with a CRC that holds.
pub proof fn lemma_frame_found_behind_broken_crc(
    cfg: ConfigView,
    f: FrameView,
    flags: Seq<bool>,
    j: nat,
    g: FrameView,
    other_flags: Seq<bool>,
)
    requires
        cfg.wf(),
        cfg.payload_len matches Some(len) && len >= 1,
        fits(cfg, f),
        fits(cfg, g),
        flags.len() == 3,
        other_flags.len() == 3,
        j < 16,
        forall|at: int|
            0 <= at < encoding(cfg, f, flags).len() + 8 && at != 8 ==> !#[trigger] valid_at(
                cfg,
                flipped(encoding(cfg, f, flags), (8 + body_bits(cfg, f) + j) as int) + encoding(
                    cfg,
                    g,
                    other_flags,
                ),
                at,
            ),
    ensures
        decode(
            cfg,
            DecoderView::Empty,
            flipped(encoding(cfg, f, flags), (8 + body_bits(cfg, f) + j) as int) + encoding(
                cfg,
                g,
                other_flags,
            ),
        ) == (DecoderView::Empty, seq![g]),
{
    lemma_fits(cfg, f);
    lemma_lengths(cfg, f, flags);
    let broken = flipped(encoding(cfg, f, flags), (8 + body_bits(cfg, f) + j) as int);
    lemma_broken_stretch_is_not_valid(cfg, f, flags, j, encoding(cfg, g, other_flags));
    lemma_first_frame_found_with_fixed_length(cfg, broken, g, other_flags);
}

/// The first place where `a` and `b` differ among their first `n` places.
proof fn first_difference(a: Seq<bool>, b: Seq<bool>, n: nat) -> (j: nat)
    requires
        n <= a.len(),
        n <= b.len(),
        exists|i: int| 0 <= i < n && a[i] != b[i],
    ensures
        j < n,
        a[j as int] != b[j as int],
        forall|i: int| 0 <= i < j ==> a[i] == b[i],
    decreases n,
{
    if exists|i: int| 0 <= i < n - 1 && a[i] != b[i] {
        first_difference(a, b, (n - 1) as nat)
    } else {
        (n - 1) as nat
    }
}

/// Prefix filter on a single frame: where the layout fixes the payload
/// length, the bits of a frame of the layout's shape whose address does not
/// start with the configured prefix, read by a fresh deframer, hand out no
/// frame.
pub proof fn lemma_wrong_address_dropped(cfg: ConfigView, f: FrameView, flags: Seq<bool>)
    requires
        flags.len() == 3,
        cfg.wf(),
        cfg.payload_len.is_some(),
        shaped(cfg, f),
        !starts_with(f.address, cfg.address_prefix),
    ensures
        decode(cfg, DecoderView::Empty, encoding(cfg, f, flags)).1 == Seq::<FrameView>::empty(),
{
    lemma_lengths(cfg, f, flags);
    let address = bytes_to_bits(f.address);
    let prefix = cfg.address_prefix;
    let n = if prefix.len() < address.len() {
        prefix.len()
    } else {
        address.len()
    };
    let i = choose|i: int| 0 <= i < prefix.len() && i < 8 * f.address.len() && address[i] != prefix[i];
    assert(0 <= i < n && address[i] != prefix[i]);
    let j = first_difference(address, prefix, n);
    assert(on_air(cfg, f, flags)[j as int] == address[j as int]);
    assert(prefix.skip(j as int)[0] == prefix[j as int]);
    lemma_failed_frame_yields_nothing(cfg, f, flags, on_air(cfg, f, flags), j);
}

/// Idempotence: two deframers of one configuration that are in one state and
/// are given the same symbols end in one state, with the same frames queued
/// behind those that they held before. For two fresh deframers these are the
/// frames found, and they are the same.
pub proof fn lemma_same_input_same_output(
    first: NrfDeframer,
    first_after: NrfDeframer,
    second: NrfDeframer,
    second_after: NrfDeframer,
    input: Seq<u8>,
)
    requires
        first.config() == second.config(),
        first.state() == second.state(),
        first.queued() == second.queued(),
        worked(first, first_after, input),
        worked(second, second_after, input),
    ensures
        first_after.config() == second_after.config(),
        first_after.state() == second_after.state(),
        first_after.queued() == second_after.queued(),
{
}

} // verus!
