//! The frames of the master output that the analysers look at.

use crate::frame_ring;
use crate::frame_ring::{first_to_read, Frame, FrameRing};
use crate::text;
use crate::text::append_decimal;
use vstd::prelude::*;
use vstd::string::StringExecFns;

verus! {

/// How many frames are held.
pub const SCOPE_FRAMES: usize = 131072;

/// How many frames are read at once: those of a second, but no more than are
/// held. Without a sample rate, that of 48 kHz counts.
pub open spec fn read_limit(sample_rate: u32) -> int {
    let rate = if sample_rate == 0 {
        48_000
    } else {
        sample_rate as int
    };
    if rate < SCOPE_FRAMES {
        rate
    } else {
        SCOPE_FRAMES as int
    }
}

/// How many frames are read at once, see [`read_limit`].
pub fn max_read_frames(sample_rate: u32) -> (r: usize)
    ensures
        r == read_limit(sample_rate),
{
    let rate: u32 = if sample_rate == 0 {
        48_000
    } else {
        sample_rate
    };
    if (rate as u64) < SCOPE_FRAMES as u64 {
        rate as usize
    } else {
        SCOPE_FRAMES
    }
}

/// The frames of the master output, and the rate at which they come.
pub struct ScopeBridgeHandle {
    pub ring: FrameRing,
    /// Zero if it is not known yet.
    pub sample_rate: u32,
}

impl ScopeBridgeHandle {
    /// A ring of the right size.
    pub open spec fn valid(self) -> bool {
        self.ring.valid() && self.ring.room() == SCOPE_FRAMES
    }

    /// Every frame that was ever written.
    pub open spec fn log(self) -> Seq<Frame> {
        self.ring.log()
    }

    /// Nothing written, no rate known.
    pub fn new() -> (r: ScopeBridgeHandle)
        ensures
            r.valid(),
            r.log() == Seq::<Frame>::empty(),
            r.sample_rate == 0,
    {
        ScopeBridgeHandle { ring: FrameRing::new(SCOPE_FRAMES), sample_rate: 0 }
    }

    /// Tells the rate.
    pub fn set_sample_rate(&mut self, sample_rate: u32)
        requires
            old(self).valid(),
        ensures
            final(self).valid(),
            final(self).log() == old(self).log(),
            final(self).sample_rate == sample_rate,
    {
        self.sample_rate = sample_rate;
    }

    /// How many frames were ever written.
    pub fn write_frames(&self) -> (r: u64)
        requires
            self.valid(),
        ensures
            r == self.log().len(),
    {
        self.ring.write_frames()
    }

    /// Writes a block: as many frames as both channels have.
    pub fn write_block(&mut self, left: &[u32], right: &[u32])
        requires
            old(self).valid(),
            old(self).log().len() + left@.len() <= u64::MAX,
        ensures
            final(self).valid(),
            final(self).log() == old(self).log() + frame_ring::interleaved(left@, right@),
            final(self).sample_rate == old(self).sample_rate,
    {
        self.ring.write_block(left, right);
    }

    /// A reader of what is written from now on.
    pub fn reader(&self) -> (r: ScopeReader)
        requires
            self.valid(),
        ensures
            r.cursor == self.log().len(),
    {
        ScopeReader { cursor: self.ring.write_frames() }
    }
}

/// Where a reader is.
#[derive(Clone, Copy, Debug, PartialEq, Eq, Structural)]
pub struct ScopeReader {
    /// The first frame that was not read yet.
    pub cursor: u64,
}

/// What a reader got.
#[derive(Clone, Copy, Debug, PartialEq, Eq, Structural)]
pub struct ReadOutcome {
    /// How many frames.
    pub frames: usize,
    /// How many were passed over: those that were overwritten, and those that
    /// were too many.
    pub dropped: u64,
}

impl ScopeReader {
    /// Appends what was written since the last time to `out`. What was
    /// overwritten meanwhile is passed over, and what is more than a second. A
    /// writer that started anew is followed.
    pub fn read(&mut self, bridge: &ScopeBridgeHandle, out: &mut Vec<Frame>) -> (r: ReadOutcome)
        requires
            bridge.valid(),
        ensures
            final(self).cursor == bridge.log().len(),
            old(self).cursor >= bridge.log().len() ==> r == (ReadOutcome { frames: 0, dropped: 0 }) && final(out)@
                == old(out)@,
            old(self).cursor < bridge.log().len() ==> ({
                let write = bridge.log().len() as int;
                let start = frame_ring::read_start(
                    old(self).cursor as int,
                    write,
                    SCOPE_FRAMES as int,
                    read_limit(bridge.sample_rate),
                );
                &&& old(self).cursor <= start <= write
                &&& final(out)@ == old(out)@ + bridge.log().subrange(start, write)
                &&& r.frames == write - start
                &&& r.dropped == start - old(self).cursor
            }),
    {
        let write: u64 = bridge.ring.write_frames();
        if write <= self.cursor {
            self.cursor = write;
            return ReadOutcome { frames: 0, dropped: 0 };
        }
        let limit: usize = max_read_frames(bridge.sample_rate);
        let start: u64 = first_to_read(self.cursor, write, SCOPE_FRAMES as u64, limit as u64);
        bridge.ring.copy_to(start, write, out);
        let dropped: u64 = start - self.cursor;
        self.cursor = write;
        ReadOutcome { frames: (write - start) as usize, dropped }
    }
}

/// The name of the memory that the frames are shared in.
pub fn scope_shmem_id(parent_pid: u32) -> (r: String)
    ensures
        r@ == "daw_01_scope_"@ + text::decimal(parent_pid as nat),
{
    let mut out = "daw_01_scope_".to_owned();
    append_decimal(&mut out, parent_pid as u64);
    out
}

/// What a reader got and what it passed over is all that was written since.
pub proof fn law_nothing_goes_missing_unsaid(cursor: int, write: int, limit: int)
    requires
        0 <= cursor <= write,
        0 <= limit,
    ensures
        ({
            let start = frame_ring::read_start(cursor, write, SCOPE_FRAMES as int, limit);
            (write - start) + (start - cursor) == write - cursor && cursor <= start <= write
        }),
{
}

} // verus!
