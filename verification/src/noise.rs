//! Noise under every layout: a broken frame hands out nothing, unless the
//! bits hold another stretch that passes every check.

use vstd::prelude::*;
use crate::bits::{bytes_to_bits, zeros};
use crate::config::ConfigView;
use crate::frame::{with_preamble, FrameView};
use crate::laws::{
    flipped, lemma_crc_detects_payload_bit, lemma_payload_flip_is_other_frame,
    with_payload_bit_flipped,
};
use crate::model::{decode, fits, starts_with, DecoderView};
use crate::scan::{claim, lemma_first_frame_found, starts_end_within, valid_at};
use crate::provenance::{
    checked, framed, lemma_nothing_valid_nothing_out, occurs, stands_at, window,
};
use crate::trace::{
    body_bits, covered, encoding, lemma_fits, lemma_lengths, on_air, shaped, trailer,
};

verus! {

/// No stretch of `stream` is framed as the layout asks with a CRC that holds,
/// but at most one that starts at place `at`.
pub open spec fn none_valid_but_at(cfg: ConfigView, stream: Seq<bool>, at: int) -> bool {
    forall|bits: Seq<bool>, from: int|
        #[trigger] stands_at(stream, bits, from) && from != at ==> !(checked(cfg, bits) && framed(
            cfg,
            bits,
        ))
}

/// Bits of which no stretch passes every check hand out nothing: it is
/// enough to look at the stretches that start at place `at` apart from the
/// others.
proof fn lemma_nothing_out(cfg: ConfigView, stream: Seq<bool>, at: int)
    requires
        cfg.wf(),
        none_valid_but_at(cfg, stream, at),
        forall|bits: Seq<bool>|
            #[trigger] stands_at(stream, bits, at) ==> !(checked(cfg, bits) && framed(cfg, bits)),
    ensures
        decode(cfg, DecoderView::Empty, stream).1 == Seq::<FrameView>::empty(),
{
    assert(window(cfg, DecoderView::Empty) + stream =~= stream);
    assert forall|bits: Seq<bool>| #[trigger] occurs(stream, bits) implies !(checked(cfg, bits)
        && framed(cfg, bits)) by {
        let from = choose|from: int| stands_at(stream, bits, from);
        assert(stands_at(stream, bits, from));
    }
    lemma_nothing_valid_nothing_out(cfg, DecoderView::Empty, stream);
}

/// The only stretch behind the preamble of a frame that is framed as the
/// layout asks is the whole of what follows the preamble.
proof fn lemma_framed_is_whole(
    cfg: ConfigView,
    f: FrameView,
    flags: Seq<bool>,
    crc: Seq<bool>,
    bits: Seq<bool>,
)
    requires
        cfg.wf(),
        shaped(cfg, f),
        flags.len() == 3,
        crc.len() == 16,
        stands_at(
            with_preamble(on_air(cfg, f, flags).take(body_bits(cfg, f) as int) + crc),
            bits,
            8,
        ),
        framed(cfg, bits),
    ensures
        bits == on_air(cfg, f, flags).take(body_bits(cfg, f) as int) + crc,
{
    lemma_lengths(cfg, f, flags);
    let body = on_air(cfg, f, flags).take(body_bits(cfg, f) as int);
    let stream = with_preamble(body + crc);
    let buffer = zeros(cfg.padding_bits()) + bits;
    let from = cfg.address_end() as int;
    if cfg.shockburst {
        assert(buffer.subrange(from, from + 6) =~= f.length_field());
    }
    assert(bits.len() == body_bits(cfg, f) + 16);
    assert(stream.subrange(8, 8 + bits.len() as int) =~= body + crc);
}

/// A frame sent with a CRC other than its own is dropped, whatever the
/// layout: its bits hand out no frame, as long as no stretch of them that
/// starts elsewhere than the frame does is framed as the layout asks with a CRC
/// that holds.
pub proof fn lemma_wrong_crc_gives_nothing(
    cfg: ConfigView,
    f: FrameView,
    flags: Seq<bool>,
    crc: Seq<bool>,
)
    requires
        cfg.wf(),
        fits(cfg, f),
        flags.len() == 3,
        crc.len() == 16,
        crc != trailer(cfg, f, flags),
        none_valid_but_at(
            cfg,
            with_preamble(on_air(cfg, f, flags).take(body_bits(cfg, f) as int) + crc),
            8,
        ),
    ensures
        decode(
            cfg,
            DecoderView::Empty,
            with_preamble(on_air(cfg, f, flags).take(body_bits(cfg, f) as int) + crc),
        ).1 == Seq::<FrameView>::empty(),
{
    lemma_fits(cfg, f);
    lemma_lengths(cfg, f, flags);
    let body = on_air(cfg, f, flags).take(body_bits(cfg, f) as int);
    let stream = with_preamble(body + crc);
    assert forall|bits: Seq<bool>| #[trigger] stands_at(stream, bits, 8) implies !(checked(
        cfg,
        bits,
    ) && framed(cfg, bits)) by {
        if framed(cfg, bits) {
            lemma_framed_is_whole(cfg, f, flags, crc, bits);
            let buffer = zeros(cfg.padding_bits()) + bits;
            assert(buffer.take(buffer.len() - 16) =~= covered(cfg, f, flags));
            assert(buffer.skip(buffer.len() - 16) =~= crc);
        }
    }
    lemma_nothing_out(cfg, stream, 8);
}

/// Noise in the CRC, whatever the layout: the bits of a frame with one of
/// its sixteen CRC bits turned over hand out no frame, as long as no stretch of
/// them that starts elsewhere than the frame does passes every check.
pub proof fn lemma_broken_crc_gives_nothing(cfg: ConfigView, f: FrameView, flags: Seq<bool>, j: nat)
    requires
        cfg.wf(),
        fits(cfg, f),
        flags.len() == 3,
        j < 16,
        none_valid_but_at(
            cfg,
            flipped(encoding(cfg, f, flags), (8 + body_bits(cfg, f) + j) as int),
            8,
        ),
    ensures
        decode(
            cfg,
            DecoderView::Empty,
            flipped(encoding(cfg, f, flags), (8 + body_bits(cfg, f) + j) as int),
        ).1 == Seq::<FrameView>::empty(),
{
    lemma_fits(cfg, f);
    lemma_lengths(cfg, f, flags);
    let crc = flipped(trailer(cfg, f, flags), j as int);
    let body = on_air(cfg, f, flags).take(body_bits(cfg, f) as int);
    assert(crc[j as int] != trailer(cfg, f, flags)[j as int]);
    assert(flipped(encoding(cfg, f, flags), (8 + body_bits(cfg, f) + j) as int) =~= with_preamble(
        body + crc,
    ));
    lemma_wrong_crc_gives_nothing(cfg, f, flags, crc);
}

/// Noise in the payload, whatever the layout: the bits of a frame with one
/// payload bit turned over hand out no frame, as long as no stretch of them
/// that starts elsewhere than the frame does passes every check.
pub proof fn lemma_broken_payload_gives_nothing(
    cfg: ConfigView,
    f: FrameView,
    flags: Seq<bool>,
    k: nat,
)
    requires
        cfg.wf(),
        fits(cfg, f),
        flags.len() == 3,
        k < 8 * f.payload.len(),
        none_valid_but_at(
            cfg,
            flipped(
                encoding(cfg, f, flags),
                (8 + 8 * f.address.len() + cfg.header_bits() + k) as int,
            ),
            8,
        ),
    ensures
        decode(
            cfg,
            DecoderView::Empty,
            flipped(
                encoding(cfg, f, flags),
                (8 + 8 * f.address.len() + cfg.header_bits() + k) as int,
            ),
        ).1 == Seq::<FrameView>::empty(),
{
    let g = with_payload_bit_flipped(f, k as int);
    lemma_crc_detects_payload_bit(cfg, f, flags, k);
    lemma_payload_flip_is_other_frame(cfg, f, flags, k);
    lemma_wrong_crc_gives_nothing(cfg, g, flags, trailer(cfg, f, flags));
}

/// The prefix filter on a single frame, whatever the layout: the bits of a
/// frame of the layout's shape whose address does not start with the
/// configured prefix hand out no frame, as long as no stretch of them that
/// starts elsewhere than the frame does passes every check.
pub proof fn lemma_wrong_address_gives_nothing(cfg: ConfigView, f: FrameView, flags: Seq<bool>)
    requires
        cfg.wf(),
        shaped(cfg, f),
        flags.len() == 3,
        !starts_with(f.address, cfg.address_prefix),
        none_valid_but_at(cfg, encoding(cfg, f, flags), 8),
    ensures
        decode(cfg, DecoderView::Empty, encoding(cfg, f, flags)).1 == Seq::<FrameView>::empty(),
{
    lemma_lengths(cfg, f, flags);
    let stream = encoding(cfg, f, flags);
    let pad = cfg.padding_bits() as int;
    assert forall|bits: Seq<bool>| #[trigger] stands_at(stream, bits, 8) implies !(checked(
        cfg,
        bits,
    ) && framed(cfg, bits)) by {
        if framed(cfg, bits) {
            let buffer = zeros(cfg.padding_bits()) + bits;
            assert forall|i: int|
                0 <= i < cfg.address_prefix.len() && i < 8 * f.address.len() implies bytes_to_bits(
                f.address,
            )[i] == #[trigger] cfg.address_prefix[i] by {
                assert(buffer[pad + i] == bits[i]);
                assert(bits[i] == stream.subrange(8, 8 + bits.len() as int)[i]);
                assert(stream[8 + i] == on_air(cfg, f, flags)[i]);
            }
        }
    }
    lemma_nothing_out(cfg, stream, 8);
}

/// What comes behind a broken frame, whatever the layout: the frame that
/// follows a frame sent with a CRC other than its own comes out, and nothing
/// else, as long as no start before it but that of the broken frame has a valid
/// stretch, and none that gets as far as its payload lays claim to more bits
/// than there are. A frame with a payload bit or a CRC bit turned over is such
/// a broken frame.
pub proof fn lemma_frame_found_behind_wrong_crc(
    cfg: ConfigView,
    f: FrameView,
    flags: Seq<bool>,
    crc: Seq<bool>,
    g: FrameView,
    other_flags: Seq<bool>,
)
    requires
        cfg.wf(),
        fits(cfg, f),
        fits(cfg, g),
        flags.len() == 3,
        other_flags.len() == 3,
        crc.len() == 16,
        crc != trailer(cfg, f, flags),
        forall|at: int|
            0 <= at < body_bits(cfg, f) + 32 && at != 8 ==> !#[trigger] valid_at(
                cfg,
                with_preamble(on_air(cfg, f, flags).take(body_bits(cfg, f) as int) + crc)
                    + encoding(cfg, g, other_flags),
                at,
            ),
        starts_end_within(
            cfg,
            with_preamble(on_air(cfg, f, flags).take(body_bits(cfg, f) as int) + crc) + encoding(
                cfg,
                g,
                other_flags,
            ),
            body_bits(cfg, f) as int + 32,
        ),
    ensures
        decode(
            cfg,
            DecoderView::Empty,
            with_preamble(on_air(cfg, f, flags).take(body_bits(cfg, f) as int) + crc) + encoding(
                cfg,
                g,
                other_flags,
            ),
        ) == (DecoderView::Empty, seq![g]),
{
    lemma_fits(cfg, f);
    lemma_lengths(cfg, f, flags);
    let body = on_air(cfg, f, flags).take(body_bits(cfg, f) as int);
    let broken = with_preamble(body + crc);
    let stream = broken + encoding(cfg, g, other_flags);
    assert(!valid_at(cfg, stream, 8)) by {
        if cfg.shockburst {
            let from = 8 + 8 * cfg.address_len as int;
            assert(stream.subrange(from, from + 6) =~= f.length_field());
        }
        assert(claim(cfg, stream, 8) == body_bits(cfg, f) + 16);
        let bits = stream.subrange(8, 8 + claim(cfg, stream, 8) as int);
        assert(bits =~= body + crc);
        let buffer = zeros(cfg.padding_bits()) + bits;
        assert(buffer.take(buffer.len() - 16) =~= covered(cfg, f, flags));
        assert(buffer.skip(buffer.len() - 16) =~= crc);
    }
    assert(broken.len() + 8 == body_bits(cfg, f) + 32);
    lemma_first_frame_found(cfg, broken, g, other_flags);
}

} // verus!
