//! What every step and every run of the machine keeps.

use vstd::prelude::*;
use crate::bits::{
    bits_to_bytes, bytes_to_bits, zeros, lemma_length_field_value, lemma_unpack_pack,
};
use crate::checksum::{crc16, crc_bits};
use crate::config::ConfigView;
use crate::frame::FrameView;
use crate::model::{
    lemma_advance_held, admissible, advance, announced_length, check_crc, decode, emitted,
    frame_of, length_kept, mismatch, padded, prefix_kept, receive_address, receive_header,
    receive_payload, rest, rewound, settle, starts_with, still_expected, DecoderView, Step,
};

verus! {

/// What a step yields from a well-formed state: a well-formed state and, if
/// a frame, an admissible one; or a buffer to rewind that holds at least one
/// bit behind the padding.
pub open spec fn step_ok(cfg: ConfigView, step: Step) -> bool {
    match step {
        Step::Next(next, frame) => {
            &&& next.wf(cfg)
            &&& frame matches Some(f) ==> admissible(cfg, f)
        },
        Step::Rewind(buffer) => buffer.len() > cfg.padding_bits(),
    }
}

/// Matching one more bit keeps `still_expected` in step.
pub proof fn lemma_expected_moves_on(all: Seq<bool>, seen: int, bit: bool)
    requires
        0 <= seen,
        !mismatch(still_expected(all, seen), bit),
    ensures
        rest(still_expected(all, seen)) == still_expected(all, seen + 1),
        seen < all.len() ==> all[seen] == bit,
{
    if seen < all.len() {
        assert(all.skip(seen).skip(1) =~= all.skip(seen + 1));
        assert(all.skip(seen)[0] == all[seen]);
    } else if seen == all.len() {
        assert(all.skip(seen).len() == 0);
    }
}

proof fn lemma_receive_address_ok(
    cfg: ConfigView,
    buffer: Seq<bool>,
    expected: Seq<bool>,
    bit: bool,
)
    requires
        cfg.wf(),
        (DecoderView::RecvAddr { buffer, expected }).wf(cfg),
    ensures
        step_ok(cfg, receive_address(cfg, buffer, expected, bit)),
{
    let data = buffer.push(bit);
    let seen = buffer.len() - cfg.padding_bits();
    if !mismatch(expected, bit) {
        lemma_expected_moves_on(cfg.address_prefix, seen, bit);
        assert(padded(cfg, data));
        assert(prefix_kept(cfg, data)) by {
            assert forall|i: int|
                0 <= i < cfg.address_prefix.len() && i < 8 * cfg.address_len && cfg.padding_bits()
                    + i < data.len() implies data[cfg.padding_bits() + i]
                == #[trigger] cfg.address_prefix[i] by {
                if cfg.padding_bits() + i < buffer.len() {
                    assert(data[cfg.padding_bits() + i] == buffer[cfg.padding_bits() + i]);
                }
            }
        }
        if data.len() < cfg.address_end() {
        } else if !cfg.shockburst && cfg.payload_len.is_some() {
        } else {
            assert(cfg.length_field().skip(0) =~= cfg.length_field());
            assert(length_kept(cfg, data));
        }
    }
}

proof fn lemma_receive_header_ok(
    cfg: ConfigView,
    buffer: Seq<bool>,
    expected: Seq<bool>,
    bit: bool,
)
    requires
        cfg.wf(),
        (DecoderView::RecvHeader { buffer, expected }).wf(cfg),
    ensures
        step_ok(cfg, receive_header(cfg, buffer, expected, bit)),
{
    let data = buffer.push(bit);
    let seen = buffer.len() - cfg.address_end();
    if !mismatch(expected, bit) {
        lemma_expected_moves_on(cfg.length_field(), seen, bit);
        assert(padded(cfg, data));
        assert(prefix_kept(cfg, data)) by {
            assert forall|i: int|
                0 <= i < cfg.address_prefix.len() && i < 8 * cfg.address_len && cfg.padding_bits()
                    + i < data.len() implies data[cfg.padding_bits() + i]
                == #[trigger] cfg.address_prefix[i] by {
                assert(data[cfg.padding_bits() + i] == buffer[cfg.padding_bits() + i]);
            }
        }
        assert(length_kept(cfg, data)) by {
            assert forall|i: int|
                0 <= i < cfg.length_field().len() && cfg.address_end() + i
                    < data.len() implies data[cfg.address_end() + i]
                == #[trigger] cfg.length_field()[i] by {
                if cfg.address_end() + i < buffer.len() {
                    assert(data[cfg.address_end() + i] == buffer[cfg.address_end() + i]);
                }
            }
        }
        if data.len() < cfg.header_end() {
        } else if announced_length(cfg, data) <= 32 {
            let len = announced_length(cfg, data);
            let end = cfg.payload_end(len);
            assert((end - cfg.header_end()) / 8 == len);
            if let Some(p) = cfg.payload_len {
                lemma_length_field_value(p as u8);
                assert(data.subrange(cfg.address_end() as int, cfg.address_end() as int + 6)
                    =~= cfg.length_field());
            }
        }
    }
}

/// A bit behind the control field leaves the announced length as it is.
proof fn lemma_announced_stays(cfg: ConfigView, buffer: Seq<bool>, bit: bool)
    requires
        cfg.address_end() + 6 <= buffer.len(),
    ensures
        announced_length(cfg, buffer.push(bit)) == announced_length(cfg, buffer),
{
    let from = cfg.address_end() as int;
    assert(buffer.push(bit).subrange(from, from + 6) =~= buffer.subrange(from, from + 6));
}

proof fn lemma_receive_payload_ok(cfg: ConfigView, end: nat, buffer: Seq<bool>, bit: bool)
    requires
        cfg.wf(),
        (DecoderView::RecvPayload { end, buffer }).wf(cfg),
    ensures
        step_ok(cfg, receive_payload(cfg, end, buffer, bit)),
{
    let data = buffer.push(bit);
    assert(padded(cfg, data));
    assert(prefix_kept(cfg, data)) by {
        assert forall|i: int|
            0 <= i < cfg.address_prefix.len() && i < 8 * cfg.address_len && cfg.padding_bits() + i
                < data.len() implies data[cfg.padding_bits() + i]
            == #[trigger] cfg.address_prefix[i] by {
            assert(data[cfg.padding_bits() + i] == buffer[cfg.padding_bits() + i]);
        }
    }
    if cfg.shockburst {
        lemma_announced_stays(cfg, buffer, bit);
    }
    if data.len() >= end {
        // none of the CRC bits is seen yet
        let crc = crc_bits(crc16(cfg.crc_init(), bits_to_bytes(data)));
        assert(data.take(data.len() as int) =~= data);
        assert(crc.skip(0) =~= crc);
        assert(data.skip(data.len() as int) =~= crc.take(0));
    }
}

proof fn lemma_check_crc_ok(cfg: ConfigView, buffer: Seq<bool>, expected: Seq<bool>, bit: bool)
    requires
        cfg.wf(),
        (DecoderView::CheckCrc { buffer, expected }).wf(cfg),
    ensures
        step_ok(cfg, check_crc(cfg, buffer, expected, bit)),
{
    let data = buffer.push(bit);
    assert(padded(cfg, data));
    assert(prefix_kept(cfg, data)) by {
        assert forall|i: int|
            0 <= i < cfg.address_prefix.len() && i < 8 * cfg.address_len && cfg.padding_bits() + i
                < data.len() implies data[cfg.padding_bits() + i]
            == #[trigger] cfg.address_prefix[i] by {
            assert(data[cfg.padding_bits() + i] == buffer[cfg.padding_bits() + i]);
        }
    }
    if cfg.shockburst {
        lemma_announced_stays(cfg, buffer, bit);
    }
    let seen = 16 - expected.len();
    let covered = buffer.take(buffer.len() - seen);
    let crc = crc_bits(crc16(cfg.crc_init(), bits_to_bytes(covered)));
    if !mismatch(expected, bit) && rest(expected).len() > 0 {
        // one more of the CRC bits is seen
        assert(data.take(data.len() - (seen + 1)) =~= covered);
        assert(rest(expected) =~= crc.skip(seen + 1));
        assert(data.skip(data.len() - (seen + 1)) =~= crc.take(seen + 1));
    }
    if !mismatch(expected, bit) && rest(expected).len() == 0 {
        let f = frame_of(cfg, data);
        let address_bits = data.subrange(cfg.padding_bits() as int, cfg.address_end() as int);
        lemma_unpack_pack(address_bits);
        assert(starts_with(f.address, cfg.address_prefix)) by {
            assert forall|i: int|
                0 <= i < cfg.address_prefix.len() && i < 8 * f.address.len() implies bytes_to_bits(
                f.address,
            )[i] == #[trigger] cfg.address_prefix[i] by {
                assert(address_bits[i] == data[cfg.padding_bits() + i]);
            }
        }
    }
}

/// A step from a well-formed state yields a well-formed state and only
/// admissible frames.
pub proof fn lemma_advance_ok(cfg: ConfigView, s: DecoderView, bit: bool)
    requires
        cfg.wf(),
        s.wf(cfg),
    ensures
        step_ok(cfg, advance(cfg, s, bit)),
{
    match s {
        DecoderView::Empty => {},
        DecoderView::Sync { count, last } => {
            if last != bit && count == 8 {
                let start = zeros(cfg.padding_bits());
                assert(cfg.address_prefix.skip(0) =~= cfg.address_prefix);
                lemma_receive_address_ok(cfg, start, cfg.address_prefix, bit);
            }
        },
        DecoderView::RecvAddr { buffer, expected } => {
            lemma_receive_address_ok(cfg, buffer, expected, bit);
        },
        DecoderView::RecvHeader { buffer, expected } => {
            lemma_receive_header_ok(cfg, buffer, expected, bit);
        },
        DecoderView::RecvPayload { end, buffer } => {
            lemma_receive_payload_ok(cfg, end, buffer, bit);
        },
        DecoderView::CheckCrc { buffer, expected } => {
            lemma_check_crc_ok(cfg, buffer, expected, bit);
        },
    }
}

/// Every frame of `frames` is admissible under `cfg`.
pub open spec fn all_admissible(cfg: ConfigView, frames: Seq<FrameView>) -> bool {
    forall|i: int| 0 <= i < frames.len() ==> admissible(cfg, #[trigger] frames[i])
}

/// One bit alone: the step it makes, settled.
pub proof fn lemma_decode_one(cfg: ConfigView, s: DecoderView, bit: bool)
    ensures
        decode(cfg, s, seq![bit]) == settle(cfg, advance(cfg, s, bit)),
{
    let input = seq![bit];
    assert(input.skip(1) =~= Seq::<bool>::empty());
    match advance(cfg, s, bit) {
        Step::Next(next, frame) => {
            assert(decode(cfg, next, input.skip(1)) == (next, Seq::<FrameView>::empty()));
            assert(emitted(frame) + Seq::<FrameView>::empty() =~= emitted(frame));
        },
        Step::Rewind(buffer) => {
            assert(rewound(cfg, buffer).1 + input.skip(1) =~= rewound(cfg, buffer).1);
        },
    }
}

/// A run from a well-formed state ends in a well-formed state and hands out
/// only admissible frames.
pub proof fn lemma_decode_ok(cfg: ConfigView, s: DecoderView, input: Seq<bool>)
    requires
        cfg.wf(),
        s.wf(cfg),
    ensures
        decode(cfg, s, input).0.wf(cfg),
        all_admissible(cfg, decode(cfg, s, input).1),
    decreases s.held(cfg) + input.len(), input.len(),
{
    if input.len() > 0 {
        lemma_advance_ok(cfg, s, input[0]);
        lemma_advance_held(cfg, s, input[0]);
        match advance(cfg, s, input[0]) {
            Step::Next(next, frame) => {
                lemma_decode_ok(cfg, next, input.skip(1));
            },
            Step::Rewind(buffer) => {
                lemma_decode_ok(
                    cfg,
                    rewound(cfg, buffer).0,
                    rewound(cfg, buffer).1 + input.skip(1),
                );
            },
        }
    }
}

/// A run never holds more than it held before plus what it read.
pub proof fn lemma_decode_held(cfg: ConfigView, s: DecoderView, input: Seq<bool>)
    ensures
        decode(cfg, s, input).0.held(cfg) <= s.held(cfg) + input.len(),
    decreases s.held(cfg) + input.len(), input.len(),
{
    if input.len() > 0 {
        lemma_advance_held(cfg, s, input[0]);
        match advance(cfg, s, input[0]) {
            Step::Next(next, frame) => {
                lemma_decode_held(cfg, next, input.skip(1));
            },
            Step::Rewind(buffer) => {
                lemma_decode_held(
                    cfg,
                    rewound(cfg, buffer).0,
                    rewound(cfg, buffer).1 + input.skip(1),
                );
            },
        }
    }
}

/// Reading `a` and then `b` is reading `a + b`: the machine keeps nothing
/// but its state between two runs.
pub proof fn lemma_decode_concat(cfg: ConfigView, s: DecoderView, a: Seq<bool>, b: Seq<bool>)
    ensures
        decode(cfg, s, a + b).0 == decode(cfg, decode(cfg, s, a).0, b).0,
        decode(cfg, s, a + b).1 == decode(cfg, s, a).1 + decode(cfg, decode(cfg, s, a).0, b).1,
    decreases s.held(cfg) + a.len(), a.len(),
{
    if a.len() == 0 {
        assert(a + b =~= b);
        assert(Seq::<FrameView>::empty() + decode(cfg, s, b).1 =~= decode(cfg, s, b).1);
    } else {
        lemma_advance_held(cfg, s, a[0]);
        assert((a + b)[0] == a[0]);
        assert((a + b).skip(1) =~= a.skip(1) + b);
        match advance(cfg, s, a[0]) {
            Step::Next(next, frame) => {
                lemma_decode_concat(cfg, next, a.skip(1), b);
                let first = decode(cfg, next, a.skip(1));
                let second = decode(cfg, first.0, b);
                assert(emitted(frame) + (first.1 + second.1) =~= (emitted(frame) + first.1)
                    + second.1);
            },
            Step::Rewind(buffer) => {
                let again = rewound(cfg, buffer).1;
                lemma_decode_concat(cfg, rewound(cfg, buffer).0, again + a.skip(1), b);
                assert(again + (a.skip(1) + b) =~= (again + a.skip(1)) + b);
            },
        }
    }
}

} // verus!
