//! The order in which the coders work on a frame.

use vstd::prelude::*;
use crate::encoder::OpusEncoder;
use crate::frame::FrameRun;
use crate::modes::{
    MODE_CELT_ONLY, MODE_HYBRID, MODE_SILK_ONLY, OPUS_APPLICATION_RESTRICTED_SILK,
};
use crate::plan::{frame_domain, lemma_frame_samples};

verus! {

/// What is done to a frame, in this order. Not all of it is done to each frame.
#[derive(Clone, Copy, Debug, PartialEq, Eq, Structural)]
pub enum Stage {
    /// The frame is filtered, and what is known of it noted.
    Start,
    /// The speech coder is told of the frame.
    Tell,
    /// The speech coder is warmed up with what came before the frame.
    WarmSpeech,
    /// The speech coder codes the frame.
    Speech,
    /// The music coder is told of the frame, its sound is shaped, and a short frame
    /// announced.
    Shape,
    /// A short music frame is coded that leads to speech.
    LeadShort,
    /// The music coder is told what it may spend.
    Aim,
    /// The music coder is warmed up with what came before the frame.
    WarmMusic,
    /// The music coder codes the frame.
    Music,
    /// A short music frame is coded that leads to music.
    TrailShort,
    /// The packet is finished.
    End,
}

/// The place of a stage in the order.
pub open spec fn rank(stage: Stage) -> int {
    match stage {
        Stage::Start => 0,
        Stage::Tell => 1,
        Stage::WarmSpeech => 2,
        Stage::Speech => 3,
        Stage::Shape => 4,
        Stage::LeadShort => 5,
        Stage::Aim => 6,
        Stage::WarmMusic => 7,
        Stage::Music => 8,
        Stage::TrailShort => 9,
        Stage::End => 10,
    }
}

impl OpusEncoder {
    /// Whether a stage is part of a frame.
    pub open spec fn takes_stage(&self, run: FrameRun, stage: Stage) -> bool {
        match stage {
            Stage::Tell | Stage::Speech => self.mode != MODE_CELT_ONLY,
            Stage::WarmSpeech => self.mode != MODE_CELT_ONLY && run.prefill != 0
                && self.application != OPUS_APPLICATION_RESTRICTED_SILK,
            Stage::LeadShort => run.redundancy && run.celt_to_silk,
            Stage::WarmMusic => self.warms_up(),
            Stage::Music => self.mode != MODE_SILK_ONLY,
            Stage::TrailShort => run.redundancy && !run.celt_to_silk,
            _ => true,
        }
    }

    fn has_stage(&self, run: &FrameRun, stage: Stage) -> (r: bool)
        ensures
            r == self.takes_stage(*run, stage),
    {
        match stage {
            Stage::Tell | Stage::Speech => self.mode != MODE_CELT_ONLY,
            Stage::WarmSpeech => self.mode != MODE_CELT_ONLY && run.prefill != 0
                && self.application != OPUS_APPLICATION_RESTRICTED_SILK,
            Stage::LeadShort => run.redundancy && run.celt_to_silk,
            Stage::WarmMusic => self.needs_warm_up(),
            Stage::Music => self.mode != MODE_SILK_ONLY,
            Stage::TrailShort => run.redundancy && !run.celt_to_silk,
            _ => true,
        }
    }

    /// The stage after `stage`: the first one behind it that is part of the frame. The end
    /// follows itself.
    pub fn next_stage(&self, run: &FrameRun, stage: Stage) -> (r: Stage)
        ensures
            self.takes_stage(*run, r),
            rank(r) > rank(stage) || (r == Stage::End && stage == Stage::End),
            forall|s: Stage|
                #![trigger rank(s)]
                rank(stage) < rank(s) < rank(r) ==> !self.takes_stage(*run, s),
    {
        let mut s = stage;
        loop
            invariant
                rank(stage) <= rank(s),
                forall|t: Stage|
                    #![trigger rank(t)]
                    rank(stage) < rank(t) <= rank(s) ==> !self.takes_stage(*run, t),
            decreases 10 - rank(s),
        {
            s = match s {
                Stage::Start => Stage::Tell,
                Stage::Tell => Stage::WarmSpeech,
                Stage::WarmSpeech => Stage::Speech,
                Stage::Speech => Stage::Shape,
                Stage::Shape => Stage::LeadShort,
                Stage::LeadShort => Stage::Aim,
                Stage::Aim => Stage::WarmMusic,
                Stage::WarmMusic => Stage::Music,
                Stage::Music => Stage::TrailShort,
                Stage::TrailShort => Stage::End,
                Stage::End => {
                    return Stage::End;
                },
            };
            if self.has_stage(run, s) {
                return s;
            }
        }
    }

    /// Each frame is coded by the speech coder or by the music coder, and no more than one
    /// short frame comes along.
    pub proof fn frames_are_coded(self, run: FrameRun)
        ensures
            self.takes_stage(run, Stage::Speech) || self.takes_stage(run, Stage::Music),
            !(self.takes_stage(run, Stage::LeadShort) && self.takes_stage(run, Stage::TrailShort)),
            self.takes_stage(run, Stage::LeadShort) || self.takes_stage(run, Stage::TrailShort)
                <==> run.redundancy,
    {
    }

    /// What the music coder gets to know before it codes: what the analysis found, where it
    /// codes anything, and what the speech coder found, where both code the frame.
    pub fn hand_overs(&self, run: &FrameRun) -> (r: (bool, bool))
        ensures
            r.0 == (run.redundancy || self.mode != MODE_SILK_ONLY),
            r.1 == (self.mode == MODE_HYBRID),
    {
        (run.redundancy || self.mode != MODE_SILK_ONLY, self.mode == MODE_HYBRID)
    }

    /// Where the samples start that warm up for a trailing short frame, and where its own
    /// do: 5 ms before the end of the frame, and 2.5 ms before that.
    pub fn trail_starts(&self, run: &FrameRun, len: usize) -> (r: (usize, usize))
        requires
            self.wf(),
            frame_domain(self.fs as int, run.frame_size as int),
            self.fs / 100 <= run.frame_size,
            run.frame_size * self.channels <= len,
        ensures
            r.0 == (run.frame_size - self.fs / 200 - self.fs / 400) * self.channels,
            r.1 == (run.frame_size - self.fs / 200) * self.channels,
            r.1 + self.fs / 200 * self.channels <= len,
    {
        proof {
            lemma_frame_samples(self.fs as int, run.frame_size as int, self.channels as int);
            let (n, c) = (run.frame_size as int, self.channels as int);
            let (a, b) = (self.fs as int / 200, self.fs as int / 400);
            assert((n - a) * c + a * c == n * c) by (nonlinear_arith);
            assert(0 <= (n - a - b) * c <= n * c && 0 <= (n - a) * c <= n * c)
                by (nonlinear_arith)
                requires
                    0 <= n - a - b,
                    0 <= a,
                    0 <= b,
                    0 <= c,
            ;
        }
        let short: i32 = self.fs / 200;
        let warm: i32 = self.fs / 400;
        (
            ((run.frame_size - short - warm) * self.channels) as usize,
            ((run.frame_size - short) * self.channels) as usize,
        )
    }
}

} // verus!
