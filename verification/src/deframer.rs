//! A deframer bound to its configuration and to the queue of its frames.

use vstd::prelude::*;
pub use crate::config::NrfConfig;
pub use crate::decoder::NrfDecoder;
pub use crate::frame::NrfFrame;
use crate::config::ConfigView;
use crate::frame::{frame_views, FrameView};
use crate::invariants::{all_admissible, lemma_decode_concat, lemma_decode_ok};
use crate::model::{decode, DecoderView};

verus! {

/// What a call of `work` did.
#[derive(Debug, Clone, Copy, PartialEq, Eq, Structural)]
pub enum WorkStatus {
    /// There was no input: nothing was done.
    Noop,
    /// All of the input was taken.
    Done,
}

/// The bits that a run of symbols stands for: every symbol but zero is a one.
pub open spec fn symbols(input: Seq<u8>) -> Seq<bool> {
    input.map_values(|b: u8| b != 0)
}

/// What `work` on `input` makes of a deframer: the configuration stays, the
/// state is the one after the bits of `input`, and the frames found are queued
/// behind those that were queued before.
pub open spec fn worked(before: NrfDeframer, after: NrfDeframer, input: Seq<u8>) -> bool {
    let run = decode(before.config(), before.state(), symbols(input));
    &&& after.config() == before.config()
    &&& after.state() == run.0
    &&& after.queued() == before.queued() + run.1
}

/// Deframer of one channel: it takes sliced symbols, one per byte, and queues
/// the frames it finds.
pub struct NrfDeframer {
    dst: Vec<NrfFrame>,
    config: NrfConfig,
    state: NrfDecoder,
}

impl NrfDeframer {
    #[verifier::type_invariant]
    closed spec fn valid(self) -> bool {
        self.state@.wf(self.config@)
    }

    /// The configuration.
    pub closed spec fn config(self) -> ConfigView {
        self.config@
    }

    /// The state of the machine.
    pub closed spec fn state(self) -> DecoderView {
        self.state@
    }

    /// The frames found and not yet handed out, oldest first.
    pub closed spec fn queued(self) -> Seq<FrameView> {
        frame_views(self.dst@)
    }

    /// A deframer that has seen no bit and queued no frame.
    pub fn new(config: NrfConfig) -> (deframer: Self)
        ensures
            deframer.config() == config@,
            deframer.state() == DecoderView::Empty,
            deframer.queued() == Seq::<FrameView>::empty(),
    {
        let deframer = Self { dst: Vec::new(), config, state: NrfDecoder::Empty };
        assert(frame_views(deframer.dst@) =~= Seq::<FrameView>::empty());
        deframer
    }

    /// Hands out the queued frames, oldest first, and leaves the queue empty.
    pub fn out(&mut self) -> (frames: Vec<NrfFrame>)
        ensures
            frame_views(frames@) == old(self).queued(),
            final(self).queued() == Seq::<FrameView>::empty(),
            final(self).config() == old(self).config(),
            final(self).state() == old(self).state(),
    {
        proof {
            use_type_invariant(&*self);
        }
        let mut frames: Vec<NrfFrame> = Vec::new();
        std::mem::swap(&mut self.dst, &mut frames);
        assert(frame_views(self.dst@) =~= Seq::<FrameView>::empty());
        frames
    }

    /// Runs the symbols of `input` through the machine, in order, and queues
    /// the frames found, all of them admissible under the configuration.
    pub fn work(&mut self, input: &[u8]) -> (status: WorkStatus)
        ensures
            status == if input@.len() == 0 {
                WorkStatus::Noop
            } else {
                WorkStatus::Done
            },
            worked(*old(self), *final(self), input@),
            all_admissible(
                old(self).config(),
                decode(old(self).config(), old(self).state(), symbols(input@)).1,
            ),
    {
        let n: usize = input.len();
        let ghost bits = symbols(input@);
        let ghost start = self.state@;
        let ghost cfg = self.config@;
        proof {
            use_type_invariant(&*self);
            use_type_invariant(&self.config);
            lemma_decode_ok(cfg, start, bits);
            assert(frame_views(self.dst@) + Seq::<FrameView>::empty() =~= frame_views(self.dst@));
        }
        if n == 0 {
            return WorkStatus::Noop;
        }
        // the queue is worked on outside of `self` and put back at the end
        let mut queue: Vec<NrfFrame> = Vec::new();
        std::mem::swap(&mut self.dst, &mut queue);
        let mut state = self.state.clone();
        let mut i: usize = 0;
        while i < n
            invariant
                n == input@.len(),
                i <= n,
                bits == symbols(input@),
                cfg == self.config@,
                state@.wf(cfg),
                state@ == decode(cfg, start, bits.take(i as int)).0,
                frame_views(queue@) == frame_views(old(self).dst@) + decode(
                    cfg,
                    start,
                    bits.take(i as int),
                ).1,
            decreases n - i,
        {
            let bit: bool = input[i] != 0;
            proof {
                let done = bits.take(i as int);
                assert(done + seq![bit] =~= bits.take(i + 1));
                lemma_decode_concat(cfg, start, done, seq![bit]);
                let before = decode(cfg, start, done).1;
                let now = decode(cfg, state@, seq![bit]).1;
                assert((frame_views(old(self).dst@) + before) + now =~= frame_views(
                    old(self).dst@,
                ) + (before + now));
            }
            state = state.push_bit(&self.config, &mut queue, bit);
            i += 1;
        }
        proof {
            assert(bits.take(n as int) =~= bits);
        }
        std::mem::swap(&mut self.dst, &mut queue);
        self.state = state;
        WorkStatus::Done
    }
}

} // verus!
