//! Holding on to the highest peaks.
//!
//! What peak the signal reaches around a frame is computed elsewhere, from the
//! frames before it. Here the highest peak of a block and the highest since the
//! last reset are kept, with the frame at which that was.

use crate::setting::Setting;
use vstd::prelude::*;

verus! {

/// How many phases the interpolation has at a sample rate: none where the
/// samples are close enough as they are.
pub fn phases_for(sample_rate: u32) -> (r: usize)
    ensures
        r == if sample_rate >= 192_000 {
            0int
        } else if sample_rate >= 96_000 {
            2
        } else {
            4
        },
{
    if sample_rate >= 192_000 {
        0
    } else if sample_rate >= 96_000 {
        2
    } else {
        4
    }
}

/// Peaks, as bit patterns of floats.
#[derive(Clone, Copy, Debug, PartialEq, Eq, Structural)]
pub struct TruePeakMeter {
    /// The highest of the last block.
    pub block_peak: Setting,
    /// The highest since the last reset.
    pub max_peak: Setting,
    /// Whether the highest since the last reset is still measured.
    pub running: bool,
    /// How many frames there were since the last reset.
    pub frames_seen: u64,
    /// The frame at which the highest was.
    pub max_at_frame: u64,
}

/// The highest of the first `n` peaks, zero at least.
pub open spec fn highest(peaks: Seq<Setting>, n: nat) -> Setting
    decreases n,
{
    if n == 0 {
        Setting { bits: 0 }
    } else {
        let front = highest(peaks, (n - 1) as nat);
        if front.lt(peaks[n - 1]) {
            peaks[n - 1]
        } else {
            front
        }
    }
}

/// The highest peak and the frame at which it was, after `n` more frames.
pub open spec fn held(max: Setting, at: u64, start: u64, peaks: Seq<Setting>, n: nat) -> (Setting, u64)
    decreases n,
{
    if n == 0 {
        (max, at)
    } else {
        let front = held(max, at, start, peaks, (n - 1) as nat);
        if front.0.lt(peaks[n - 1]) {
            (peaks[n - 1], (start + n - 1) as u64)
        } else {
            front
        }
    }
}

impl TruePeakMeter {
    /// A meter that has seen nothing yet, and is running.
    pub fn new() -> (r: TruePeakMeter)
        ensures
            r == (TruePeakMeter {
                block_peak: Setting { bits: 0 },
                max_peak: Setting { bits: 0 },
                running: true,
                frames_seen: 0,
                max_at_frame: 0,
            }),
    {
        TruePeakMeter {
            block_peak: Setting { bits: 0 },
            max_peak: Setting { bits: 0 },
            running: true,
            frames_seen: 0,
            max_at_frame: 0,
        }
    }

    /// Goes on measuring the highest peak, or stands by.
    pub fn set_running(&mut self, running: bool)
        ensures
            *final(self) == (TruePeakMeter { running, ..*old(self) }),
    {
        self.running = running;
    }

    /// Starts over.
    pub fn reset_max(&mut self)
        ensures
            *final(self) == (TruePeakMeter {
                block_peak: Setting { bits: 0 },
                max_peak: Setting { bits: 0 },
                frames_seen: 0,
                max_at_frame: 0,
                ..*old(self)
            }),
    {
        self.block_peak = Setting { bits: 0 };
        self.max_peak = Setting { bits: 0 };
        self.frames_seen = 0;
        self.max_at_frame = 0;
    }

    /// Takes the peaks of the frames of a block. Frames are counted while standing
    /// by, too.
    pub fn process(&mut self, peaks: &Vec<Setting>)
        requires
            old(self).frames_seen + peaks@.len() <= u64::MAX,
        ensures
            final(self).running == old(self).running,
            final(self).frames_seen == old(self).frames_seen + peaks@.len(),
            final(self).block_peak == highest(peaks@, peaks@.len()),
            (final(self).max_peak, final(self).max_at_frame) == if old(self).running {
                held(old(self).max_peak, old(self).max_at_frame, old(self).frames_seen, peaks@, peaks@.len())
            } else {
                (old(self).max_peak, old(self).max_at_frame)
            },
    {
        let ghost was = *self;
        let mut block = Setting { bits: 0 };
        let mut i: usize = 0;
        while i < peaks.len()
            invariant
                i <= peaks@.len(),
                was.frames_seen + peaks@.len() <= u64::MAX,
                self.running == was.running,
                self.frames_seen == was.frames_seen,
                block == highest(peaks@, i as nat),
                (self.max_peak, self.max_at_frame) == if was.running {
                    held(was.max_peak, was.max_at_frame, was.frames_seen, peaks@, i as nat)
                } else {
                    (was.max_peak, was.max_at_frame)
                },
            decreases peaks@.len() - i,
        {
            let p = peaks[i];
            if block.lt(p) {
                block = p;
            }
            if self.running && self.max_peak.lt(p) {
                self.max_peak = p;
                self.max_at_frame = self.frames_seen + i as u64;
            }
            i += 1;
        }
        self.block_peak = block;
        self.frames_seen = self.frames_seen + peaks.len() as u64;
    }

    /// The frame at which the highest peak was, counted from the last reset. None
    /// if there was no sound.
    pub fn max_frame(&self) -> (r: Option<u64>)
        ensures
            r == if (Setting { bits: 0 }).lt(self.max_peak) {
                Some(self.max_at_frame)
            } else {
                None
            },
    {
        if (Setting { bits: 0 }).lt(self.max_peak) {
            Some(self.max_at_frame)
        } else {
            None
        }
    }
}

/// After a reset the highest peak is one of those that were seen, at the frame
/// that is named, and the first such: every one before it is lower, and none is
/// higher.
pub proof fn law_the_highest_is_where_it_is_said(peaks: Seq<Setting>, n: nat)
    requires
        n <= peaks.len() <= u64::MAX,
        forall|i: int| 0 <= i < peaks.len() ==> !(#[trigger] peaks[i]).is_nan(),
    ensures
        ({
            let (max, at) = held(Setting { bits: 0 }, 0, 0, peaks, n);
            &&& !max.is_nan()
            &&& forall|i: int| 0 <= i < n ==> (#[trigger] peaks[i]).le(max)
            &&& (Setting { bits: 0 }).lt(max) ==> at < n && peaks[at as int] == max && forall|i: int|
                0 <= i < at ==> (#[trigger] peaks[i]).lt(max)
            &&& max == highest(peaks, n)
        }),
    decreases n,
{
    if n > 0 {
        law_the_highest_is_where_it_is_said(peaks, (n - 1) as nat);
    }
}

} // verus!
