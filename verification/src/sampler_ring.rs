//! The ring of the global sampler, and where the song was meanwhile.
//!
//! Beside the frames it keeps segments: from which frame on the song was where,
//! and at which tempo, or stood still. One is pushed whenever that changes, and
//! from time to time.

use crate::beat::Beat;
use crate::frame_ring;
use crate::frame_ring::{first_to_read, safe_oldest_frame, Frame, FrameRing};
use crate::process_data::MAX_FRAMES;
use crate::text;
use crate::text::append_decimal;
use vstd::prelude::*;
use vstd::string::StringExecFns;

verus! {

/// How many seconds can be kept at most.
pub const MAX_SECONDS: u32 = 600;

/// How many seconds are kept unless told otherwise.
pub const DEFAULT_SECONDS: u32 = 60;

/// How many segments are kept.
pub const SEGMENTS: usize = 1024;

/// After how many frames a segment is pushed though nothing changed.
pub const SEGMENT_RESYNC_FRAMES: u64 = 96_000;

/// What stands for a song that stands still, in place of a position.
pub const STOPPED_BITS: u64 = 0xffff_ffff_ffff_ffff;

/// How large what precedes the frames is in shared memory, in bytes.
pub const HEADER_SIZE: usize = 32_800;

/// A segment as it is stored.
#[derive(Clone, Copy, Debug, PartialEq, Eq, Structural)]
pub struct Segment {
    pub ring_frame: u64,
    pub wall_ns: u64,
    /// [`STOPPED_BITS`] if the song stands still.
    pub playhead_beat_bits: u64,
    pub bpm_bits: u32,
}

/// A segment.
#[derive(Clone, Copy, Debug, PartialEq, Eq, Structural)]
pub struct SegmentInfo {
    /// The frame that it starts at.
    pub ring_frame: u64,
    /// The time of day, in nanoseconds.
    pub wall_ns: u64,
    /// Where the song was; none if it stood still.
    pub playhead_beat: Option<Beat>,
    /// The tempo, as the bit pattern of a float.
    pub bpm_bits: u32,
}

impl SegmentInfo {
    /// The segment as it is stored.
    pub open spec fn stored(self) -> Segment {
        Segment {
            ring_frame: self.ring_frame,
            wall_ns: self.wall_ns,
            playhead_beat_bits: match self.playhead_beat {
                Some(b) => b.bits,
                None => STOPPED_BITS,
            },
            bpm_bits: self.bpm_bits,
        }
    }

    /// The segment as it is stored.
    pub fn to_segment(self) -> (r: Segment)
        ensures
            r == self.stored(),
    {
        Segment {
            ring_frame: self.ring_frame,
            wall_ns: self.wall_ns,
            playhead_beat_bits: match self.playhead_beat {
                Some(b) => b.bits,
                None => STOPPED_BITS,
            },
            bpm_bits: self.bpm_bits,
        }
    }
}

/// The segment that a stored one stands for.
pub open spec fn restored(s: Segment) -> SegmentInfo {
    SegmentInfo {
        ring_frame: s.ring_frame,
        wall_ns: s.wall_ns,
        playhead_beat: if s.playhead_beat_bits == STOPPED_BITS {
            None
        } else {
            Some(Beat { bits: s.playhead_beat_bits })
        },
        bpm_bits: s.bpm_bits,
    }
}

impl Segment {
    /// The segment that this stands for.
    pub fn to_info(self) -> (r: SegmentInfo)
        ensures
            r == restored(self),
    {
        SegmentInfo {
            ring_frame: self.ring_frame,
            wall_ns: self.wall_ns,
            playhead_beat: if self.playhead_beat_bits == STOPPED_BITS {
                None
            } else {
                Some(Beat { bits: self.playhead_beat_bits })
            },
            bpm_bits: self.bpm_bits,
        }
    }
}

/// A segment comes back as it was stored, unless its position is the one that stands
/// for a song that stands still, which is no number.
pub proof fn law_segments_come_back(s: SegmentInfo)
    requires
        s.playhead_beat matches Some(b) ==> b.bits != STOPPED_BITS,
    ensures
        restored(s.stored()) == s,
{
}

/// How many frames a ring for a number of seconds holds: at least one second's
/// worth and at most [`MAX_SECONDS`]'; without a sample rate, that of 48 kHz
/// counts.
pub fn ring_capacity(seconds: u32, sample_rate: u32) -> (r: u64)
    ensures
        r == (if seconds < 1 {
            1int
        } else if seconds > MAX_SECONDS {
            MAX_SECONDS as int
        } else {
            seconds as int
        }) * (if sample_rate == 0 {
            48_000int
        } else {
            sample_rate as int
        }),
        r > 0,
{
    let seconds: u64 = if seconds < 1 {
        1
    } else if seconds > MAX_SECONDS {
        MAX_SECONDS as u64
    } else {
        seconds as u64
    };
    let rate: u64 = if sample_rate == 0 {
        48_000
    } else {
        sample_rate as u64
    };
    assert(0 < seconds * rate <= 600 * 0xffff_ffff) by (nonlinear_arith)
        requires
            0 < seconds <= 600,
            0 < rate <= 0xffff_ffff,
    ;
    seconds * rate
}

/// How large a ring is in shared memory, in bytes. None if it is too large.
pub fn shmem_size(capacity: usize) -> (r: Option<usize>)
    ensures
        match r {
            Some(n) => n == capacity * 8 + HEADER_SIZE,
            None => capacity * 8 + HEADER_SIZE > usize::MAX,
        },
{
    match capacity.checked_mul(8) {
        Some(n) => n.checked_add(HEADER_SIZE),
        None => None,
    }
}

/// A range of frames is not in the ring, or no longer.
#[derive(Clone, Copy, Debug, PartialEq, Eq, Structural)]
pub struct RingOverrun;

impl RingOverrun {
    /// What the user is told.
    pub fn message(self) -> (r: &'static str)
        ensures
            r@ == "選択した範囲はもうリングに残っていません"@,
    {
        "選択した範囲はもうリングに残っていません"
    }
}

/// Whether a range of frames can be read.
pub open spec fn can_read(start: int, end: int, write: int, capacity: int) -> bool {
    start < end <= write && frame_ring::safe_oldest(write, capacity, MAX_FRAMES as int) <= start
}

/// Whether a range of frames can be read, see [`can_read`]. Frames that were
/// read while others were written are whole if the range can still be read.
pub fn range_is_there(start: u64, end: u64, write: u64, capacity: u64) -> (r: bool)
    ensures
        r == can_read(start as int, end as int, write as int, capacity as int),
{
    start < end && end <= write && safe_oldest_frame(write, capacity, MAX_FRAMES as u64) <= start
}

/// The ring of the global sampler.
pub struct SamplerRingHandle {
    ring: FrameRing,
    segments: Vec<Segment>,
    seg_write: u64,
    sample_rate: u32,
    paused: bool,
    seg_log: Ghost<Seq<Segment>>,
}

impl SamplerRingHandle {
    /// Every frame that was ever written.
    pub closed spec fn log(self) -> Seq<Frame> {
        self.ring.log()
    }

    /// How many frames the ring holds.
    pub closed spec fn room(self) -> nat {
        self.ring.room()
    }

    /// Every segment that was ever pushed, as it is stored.
    pub closed spec fn segment_log(self) -> Seq<Segment> {
        self.seg_log@
    }

    /// The sample rate, and whether nothing is to be written.
    pub closed spec fn state(self) -> (u32, bool) {
        (self.sample_rate, self.paused)
    }

    /// The frames and segments that came last are in their places.
    pub closed spec fn valid(self) -> bool {
        &&& self.ring.valid()
        &&& self.segments@.len() == SEGMENTS
        &&& self.seg_write == self.seg_log@.len()
        &&& forall|i: int|
            0 <= i && self.seg_write - SEGMENTS <= i < self.seg_write ==> self.segments@[i % SEGMENTS as int]
                == #[trigger] self.seg_log@[i]
    }

    /// A ring for `capacity` frames with nothing in it.
    pub fn new(capacity: usize, sample_rate: u32) -> (r: SamplerRingHandle)
        requires
            capacity > 0,
        ensures
            r.valid(),
            r.log() == Seq::<Frame>::empty(),
            r.room() == capacity,
            r.segment_log() == Seq::<Segment>::empty(),
            r.state() == (sample_rate, false),
    {
        let mut segments: Vec<Segment> = Vec::new();
        let mut i: usize = 0;
        while i < SEGMENTS
            invariant
                i <= SEGMENTS,
                segments@.len() == i,
            decreases SEGMENTS - i,
        {
            segments.push(Segment { ring_frame: 0, wall_ns: 0, playhead_beat_bits: 0, bpm_bits: 0 });
            i += 1;
        }
        SamplerRingHandle {
            ring: FrameRing::new(capacity),
            segments,
            seg_write: 0,
            sample_rate,
            paused: false,
            seg_log: Ghost(Seq::empty()),
        }
    }

    /// How many frames the ring holds.
    pub fn capacity(&self) -> (r: usize)
        requires
            self.valid(),
        ensures
            r == self.room(),
    {
        self.ring.capacity()
    }

    /// The sample rate.
    pub fn sample_rate(&self) -> (r: u32)
        ensures
            r == self.state().0,
    {
        self.sample_rate
    }

    /// Whether nothing is to be written.
    pub fn paused(&self) -> (r: bool)
        ensures
            r == self.state().1,
    {
        self.paused
    }

    /// Says whether nothing is to be written.
    pub fn set_paused(&mut self, paused: bool)
        requires
            old(self).valid(),
        ensures
            final(self).valid(),
            final(self).log() == old(self).log(),
            final(self).room() == old(self).room(),
            final(self).segment_log() == old(self).segment_log(),
            final(self).state() == (old(self).state().0, paused),
    {
        self.paused = paused;
    }

    /// How many frames were ever written.
    pub fn write_frames(&self) -> (r: u64)
        requires
            self.valid(),
        ensures
            r == self.log().len(),
    {
        self.ring.write_frames()
    }

    /// The oldest frame that is still in the ring.
    pub fn oldest_frame(&self) -> (r: u64)
        requires
            self.valid(),
        ensures
            r == frame_ring::oldest(self.log().len() as int, self.room() as int),
    {
        frame_ring::oldest_frame(self.ring.write_frames(), self.ring.capacity() as u64)
    }

    /// The oldest frame that is not about to be overwritten.
    pub fn safe_oldest_frame(&self) -> (r: u64)
        requires
            self.valid(),
        ensures
            r == frame_ring::safe_oldest(self.log().len() as int, self.room() as int, MAX_FRAMES as int),
    {
        safe_oldest_frame(self.ring.write_frames(), self.ring.capacity() as u64, MAX_FRAMES as u64)
    }

    /// Writes a block: as many frames as both channels have.
    pub fn write_block(&mut self, left: &[u32], right: &[u32])
        requires
            old(self).valid(),
            old(self).log().len() + left@.len() <= u64::MAX,
        ensures
            final(self).valid(),
            final(self).log() == old(self).log() + frame_ring::interleaved(left@, right@),
            final(self).room() == old(self).room(),
            final(self).segment_log() == old(self).segment_log(),
            final(self).state() == old(self).state(),
    {
        self.ring.write_block(left, right);
    }

    /// Pushes a segment.
    pub fn push_segment(&mut self, seg: SegmentInfo)
        requires
            old(self).valid(),
            old(self).segment_log().len() < u64::MAX,
        ensures
            final(self).valid(),
            final(self).log() == old(self).log(),
            final(self).room() == old(self).room(),
            final(self).segment_log() == old(self).segment_log().push(seg.stored()),
            final(self).state() == old(self).state(),
    {
        let n: u64 = self.seg_write;
        let slot: u64 = n % (SEGMENTS as u64);
        let ghost before = self.segments@;
        let ghost log = self.seg_log@;
        let stored = seg.to_segment();
        self.segments.set(slot as usize, stored);
        self.seg_write = n + 1;
        self.seg_log = Ghost(log.push(stored));
        proof {
            let after = log.push(stored);
            assert forall|i: int| 0 <= i && n + 1 - SEGMENTS <= i < n + 1 implies self.segments@[i % SEGMENTS as int]
                == #[trigger] after[i] by {
                if i < n {
                    assert(log[i] == before[i % SEGMENTS as int]);
                    frame_ring::lemma_slots_apart(i, n as int, SEGMENTS as int);
                }
            }
        }
    }

    /// How many segments were ever pushed.
    pub fn segment_count(&self) -> (r: u64)
        requires
            self.valid(),
        ensures
            r == self.segment_log().len(),
    {
        self.seg_write
    }

    /// The segments that are still there, the oldest first.
    pub fn segments(&self) -> (r: Vec<SegmentInfo>)
        requires
            self.valid(),
        ensures
            ({
                let log = self.segment_log();
                let first = if log.len() > SEGMENTS {
                    log.len() - SEGMENTS
                } else {
                    0
                };
                r@ == log.skip(first).map_values(|s: Segment| restored(s))
            }),
    {
        let n: u64 = self.seg_write;
        let first: u64 = if n > SEGMENTS as u64 {
            n - SEGMENTS as u64
        } else {
            0
        };
        let mut r: Vec<SegmentInfo> = Vec::new();
        let mut i: u64 = first;
        while i < n
            invariant
                self.valid(),
                n == self.seg_write,
                n == self.seg_log@.len(),
                first <= i <= n,
                n - SEGMENTS <= first,
                r@.len() == i - first,
                forall|k: int| 0 <= k < r@.len() ==> #[trigger] r@[k] == restored(self.seg_log@[first + k]),
            decreases n - i,
        {
            let slot: u64 = i % (SEGMENTS as u64);
            assert(self.segments@[i as int % SEGMENTS as int] == self.seg_log@[i as int]);
            r.push(self.segments[slot as usize].to_info());
            i += 1;
        }
        assert(r@ =~= self.seg_log@.skip(first as int).map_values(|s: Segment| restored(s)));
        r
    }

    /// One frame that is still in the ring.
    pub fn read_frame(&self, frame: u64) -> (r: Frame)
        requires
            self.valid(),
            frame_ring::oldest(self.log().len() as int, self.room() as int) <= frame < self.log().len(),
        ensures
            r == self.log()[frame as int],
    {
        self.ring.read_frame(frame)
    }

    /// Appends the frames from `start` up to `end` to `out`, as they were
    /// written. Nothing is appended if they are not all there.
    pub fn read_range(&self, start: u64, end: u64, out: &mut Vec<Frame>) -> (r: Result<(), RingOverrun>)
        requires
            self.valid(),
        ensures
            r is Ok == can_read(start as int, end as int, self.log().len() as int, self.room() as int),
            r is Ok ==> final(out)@ == old(out)@ + self.log().subrange(start as int, end as int),
            r is Err ==> final(out)@ == old(out)@,
    {
        if !range_is_there(start, end, self.ring.write_frames(), self.ring.capacity() as u64) {
            return Err(RingOverrun);
        }
        self.ring.copy_to(start, end, out);
        Ok(())
    }

    /// A reader of what is written from now on.
    pub fn reader(&self) -> (r: RingReader)
        requires
            self.valid(),
        ensures
            r.cursor == self.log().len(),
    {
        RingReader { cursor: self.ring.write_frames() }
    }
}

/// Where a reader is.
#[derive(Clone, Copy, Debug, PartialEq, Eq, Structural)]
pub struct RingReader {
    /// The first frame that was not read yet.
    pub cursor: u64,
}

impl RingReader {
    /// Appends at most `max_frames` of what was written since the last time to
    /// `out`, the newest of it, and returns the first frame and how many there
    /// are. A writer that started anew is followed.
    pub fn read(&mut self, ring: &SamplerRingHandle, max_frames: usize, out: &mut Vec<Frame>) -> (r: (u64, usize))
        requires
            ring.valid(),
        ensures
            final(self).cursor == ring.log().len(),
            old(self).cursor >= ring.log().len() ==> r == (ring.log().len() as u64, 0usize) && final(out)@ == old(out)@,
            old(self).cursor < ring.log().len() ==> ({
                let write = ring.log().len() as int;
                let start = frame_ring::read_start(
                    old(self).cursor as int,
                    write,
                    ring.room() as int,
                    max_frames as int,
                );
                &&& r.0 == start
                &&& r.1 == write - start
                &&& final(out)@ == old(out)@ + ring.log().subrange(start, write)
            }),
    {
        let write: u64 = ring.ring.write_frames();
        if write <= self.cursor {
            self.cursor = write;
            return (write, 0);
        }
        let start: u64 = first_to_read(self.cursor, write, ring.ring.capacity() as u64, max_frames as u64);
        ring.ring.copy_to(start, write, out);
        self.cursor = write;
        (start, (write - start) as usize)
    }
}

/// The name of the memory that a ring is shared in. Every ring that is made
/// anew has a generation of its own.
pub fn sampler_shmem_id(parent_pid: u32, generation: u32) -> (r: String)
    ensures
        r@ == "daw_01_sampler_"@ + text::decimal(parent_pid as nat) + "_"@ + text::decimal(generation as nat),
{
    let mut out = "daw_01_sampler_".to_owned();
    append_decimal(&mut out, parent_pid as u64);
    out.append("_");
    append_decimal(&mut out, generation as u64);
    out
}

/// What was written is read back for as long as it is not about to be overwritten:
/// the frames of a block that was written, followed by what was written since.
pub proof fn law_blocks_are_read_back(before: Seq<Frame>, block: Seq<Frame>, since: Seq<Frame>, capacity: int)
    requires
        capacity > 0,
    ensures
        ({
            let log = before + block + since;
            let (start, end) = (before.len() as int, (before.len() + block.len()) as int);
            &&& log.subrange(start, end) == block
            &&& can_read(start, end, log.len() as int, capacity) == (block.len() > 0 && (log.len() <= capacity
                || block.len() + since.len() + MAX_FRAMES <= capacity))
        }),
{
    assert((before + block + since).subrange(before.len() as int, (before.len() + block.len()) as int) =~= block);
}

} // verus!
