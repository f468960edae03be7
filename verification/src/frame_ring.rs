//! A ring of stereo frames that the newest overwrite the oldest in.
//!
//! Frames are counted from the first one ever written. The count of a frame
//! says where in the ring it is, and together with the count of all frames
//! whether it is still there.

use vstd::prelude::*;

verus! {

/// A stereo frame: the bit patterns of two floats.
pub type Frame = (u32, u32);

/// The oldest frame that is still in the ring.
pub open spec fn oldest(write: int, capacity: int) -> int {
    if write <= capacity {
        0
    } else {
        write - capacity
    }
}

/// The oldest frame that is not about to be overwritten: the writer counts a
/// block of at most `block` frames only after it has written all of it.
pub open spec fn safe_oldest(write: int, capacity: int, block: int) -> int {
    if write <= capacity {
        0
    } else if write - capacity + block > write {
        write
    } else {
        write - capacity + block
    }
}

/// The first frame that a reader gets: the one after those that it has read, or
/// the oldest there is, or so that it gets no more than `limit`.
pub open spec fn read_start(cursor: int, write: int, capacity: int, limit: int) -> int {
    let from = if cursor < oldest(write, capacity) {
        oldest(write, capacity)
    } else {
        cursor
    };
    if write - from > limit {
        write - limit
    } else {
        from
    }
}

/// Where in the ring a frame is.
pub fn frame_slot(frame: u64, capacity: u64) -> (r: u64)
    requires
        capacity > 0,
    ensures
        r == frame % capacity,
        r < capacity,
{
    frame % capacity
}

/// The oldest frame that is still in the ring, see [`oldest`].
pub fn oldest_frame(write: u64, capacity: u64) -> (r: u64)
    ensures
        r == oldest(write as int, capacity as int),
{
    if write <= capacity {
        0
    } else {
        write - capacity
    }
}

/// The oldest frame that is not about to be overwritten, see [`safe_oldest`].
pub fn safe_oldest_frame(write: u64, capacity: u64, block: u64) -> (r: u64)
    ensures
        r == safe_oldest(write as int, capacity as int, block as int),
{
    if write <= capacity {
        return 0;
    }
    if block > capacity {
        write
    } else {
        write - capacity + block
    }
}

/// The first frame that a reader gets, see [`read_start`].
pub fn first_to_read(cursor: u64, write: u64, capacity: u64, limit: u64) -> (r: u64)
    requires
        cursor <= write,
    ensures
        r == read_start(cursor as int, write as int, capacity as int, limit as int),
        cursor <= r <= write,
        write - r <= limit,
        write - r <= capacity,
{
    let oldest: u64 = oldest_frame(write, capacity);
    let from: u64 = if cursor < oldest {
        oldest
    } else {
        cursor
    };
    if write - from > limit {
        write - limit
    } else {
        from
    }
}

/// A ring of frames.
pub struct FrameRing {
    frames: Vec<Frame>,
    write: u64,
    log: Ghost<Seq<Frame>>,
}

impl FrameRing {
    /// Every frame that was ever written.
    pub closed spec fn log(self) -> Seq<Frame> {
        self.log@
    }

    /// How many frames the ring holds.
    pub closed spec fn room(self) -> nat {
        self.frames@.len()
    }

    /// The frames that were written last are in the ring, each in its place.
    pub closed spec fn valid(self) -> bool {
        &&& self.frames@.len() > 0
        &&& self.write == self.log@.len()
        &&& forall|f: int|
            oldest(self.write as int, self.frames@.len() as int) <= f < self.write ==> self.frames@[f
                % self.frames@.len() as int] == #[trigger] self.log@[f]
    }

    /// A ring for `capacity` frames that nothing was written to.
    pub fn new(capacity: usize) -> (r: FrameRing)
        requires
            capacity > 0,
        ensures
            r.valid(),
            r.log() == Seq::<Frame>::empty(),
            r.room() == capacity,
    {
        let mut frames: Vec<Frame> = Vec::new();
        let mut i: usize = 0;
        while i < capacity
            invariant
                i <= capacity,
                frames@.len() == i,
            decreases capacity - i,
        {
            frames.push((0, 0));
            i += 1;
        }
        FrameRing { frames, write: 0, log: Ghost(Seq::empty()) }
    }

    /// How many frames the ring holds.
    pub fn capacity(&self) -> (r: usize)
        requires
            self.valid(),
        ensures
            r == self.room(),
            r > 0,
    {
        self.frames.len()
    }

    /// How many frames were ever written.
    pub fn write_frames(&self) -> (r: u64)
        requires
            self.valid(),
        ensures
            r == self.log().len(),
    {
        self.write
    }

    /// The frame with the given count, which is still in the ring.
    pub fn read_frame(&self, frame: u64) -> (r: Frame)
        requires
            self.valid(),
            oldest(self.log().len() as int, self.room() as int) <= frame < self.log().len(),
        ensures
            r == self.log()[frame as int],
    {
        let slot: u64 = frame_slot(frame, self.frames.len() as u64);
        self.frames[slot as usize]
    }

    /// Writes one frame.
    fn put(&mut self, frame: Frame)
        requires
            old(self).valid(),
            old(self).log().len() < u64::MAX,
        ensures
            final(self).valid(),
            final(self).log() == old(self).log().push(frame),
            final(self).room() == old(self).room(),
    {
        let n: usize = self.frames.len();
        let slot: u64 = frame_slot(self.write, n as u64);
        let ghost before = self.frames@;
        let ghost log = self.log@;
        let ghost w = self.write as int;
        self.frames.set(slot as usize, frame);
        self.write = self.write + 1;
        self.log = Ghost(log.push(frame));
        proof {
            let after = log.push(frame);
            assert forall|f: int| oldest(w + 1, n as int) <= f < w + 1 implies self.frames@[f % n as int]
                == #[trigger] after[f] by {
                if f < w {
                    assert(log[f] == before[f % n as int]);
                    lemma_slots_apart(f, w, n as int);
                }
            }
        }
    }

    /// Writes a block: as many frames as both channels have.
    pub fn write_block(&mut self, left: &[u32], right: &[u32])
        requires
            old(self).valid(),
            old(self).log().len() + left@.len() <= u64::MAX,
        ensures
            final(self).valid(),
            final(self).log() == old(self).log() + interleaved(left@, right@),
            final(self).room() == old(self).room(),
    {
        let n: usize = if left.len() < right.len() {
            left.len()
        } else {
            right.len()
        };
        let ghost before = self.log();
        let ghost all = interleaved(left@, right@);
        let mut i: usize = 0;
        assert(self.log() =~= before + all.take(0));
        while i < n
            invariant
                n == all.len(),
                n <= left@.len(),
                n <= right@.len(),
                all == interleaved(left@, right@),
                before.len() + left@.len() <= u64::MAX,
                i <= n,
                self.valid(),
                self.log() == before + all.take(i as int),
                self.room() == old(self).room(),
            decreases n - i,
        {
            self.put((left[i], right[i]));
            assert(self.log() =~= before + all.take(i + 1));
            i += 1;
        }
        assert(all.take(i as int) =~= all);
    }

    /// Appends the frames from `start` up to `end` to `out`.
    pub fn copy_to(&self, start: u64, end: u64, out: &mut Vec<Frame>)
        requires
            self.valid(),
            oldest(self.log().len() as int, self.room() as int) <= start <= end <= self.log().len(),
        ensures
            final(out)@ == old(out)@ + self.log().subrange(start as int, end as int),
    {
        let ghost before = out@;
        let mut f: u64 = start;
        assert(out@ =~= before + self.log().subrange(start as int, start as int));
        while f < end
            invariant
                self.valid(),
                oldest(self.log().len() as int, self.room() as int) <= start <= f <= end <= self.log().len(),
                out@ == before + self.log().subrange(start as int, f as int),
            decreases end - f,
        {
            out.push(self.read_frame(f));
            assert(out@ =~= before + self.log().subrange(start as int, f + 1));
            f += 1;
        }
    }
}

/// Two channels as frames; the longer one is cut.
pub open spec fn interleaved(left: Seq<u32>, right: Seq<u32>) -> Seq<Frame> {
    Seq::new(
        if left.len() < right.len() {
            left.len()
        } else {
            right.len()
        },
        |i: int| (left[i], right[i]),
    )
}

/// Frames less than one round apart are in different places.
pub proof fn lemma_slots_apart(a: int, b: int, n: int)
    requires
        0 <= a < b < a + n,
    ensures
        a % n != b % n,
{
    if a % n == b % n {
        vstd::arithmetic::div_mod::lemma_fundamental_div_mod(a, n);
        vstd::arithmetic::div_mod::lemma_fundamental_div_mod(b, n);
        let q = b / n - a / n;
        assert(b - a == n * q) by (nonlinear_arith)
            requires
                a == n * (a / n) + a % n,
                b == n * (b / n) + b % n,
                a % n == b % n,
                q == b / n - a / n,
        ;
        assert(false) by (nonlinear_arith)
            requires
                b - a == n * q,
                0 < b - a < n,
        ;
    }
}

} // verus!
