//! Selections: a range of time on some rows.

use crate::beat::Beat;
use vstd::prelude::*;

verus! {

/// A lane of a track, or of the song.
#[derive(Clone, Copy, Debug, PartialEq, Eq, Hash, Structural)]
pub struct AutomationLaneKey {
    /// [`crate::model::MASTER_TRACK_ID`] for lanes of the song.
    pub track: u32,
    pub lane: u32,
}

/// A clip of a track.
#[derive(Clone, Copy, Debug, PartialEq, Eq, Hash, Structural)]
pub struct ClipKey {
    pub track_id: u32,
    pub clip_id: u32,
}

/// A row that a selection is on.
#[derive(Clone, Copy, Debug, PartialEq, Eq, Hash, Structural)]
pub enum LaneRef {
    /// The row of a track.
    Track(u32),
    /// The row of a lane.
    Automation(AutomationLaneKey),
    /// The row of a key in the piano roll of a clip.
    KeyTrack { clip: ClipKey, pitch: u8 },
    /// The row of the waveform of a clip.
    AudioLane(ClipKey),
}

/// The track that a row belongs to.
pub open spec fn track_of(lane: LaneRef) -> u32 {
    match lane {
        LaneRef::Track(id) => id,
        LaneRef::Automation(key) => key.track,
        LaneRef::KeyTrack { clip, pitch } => clip.track_id,
        LaneRef::AudioLane(clip) => clip.track_id,
    }
}

impl LaneRef {
    /// The track that the row belongs to.
    pub fn track_id(self) -> (r: u32)
        ensures
            r == track_of(self),
    {
        match self {
            LaneRef::Track(id) => id,
            LaneRef::Automation(key) => key.track,
            LaneRef::KeyTrack { clip, .. } => clip.track_id,
            LaneRef::AudioLane(clip) => clip.track_id,
        }
    }

    /// Whether the row is one of the arrangement, not of an editor.
    pub fn is_arrangement_row(self) -> (r: bool)
        ensures
            r == (self is Track || self is Automation),
    {
        matches!(self, LaneRef::Track(_) | LaneRef::Automation(_))
    }
}

/// The bit pattern of the difference between one and the next double.
pub const EPSILON: u64 = 0x3cb0_0000_0000_0000;

/// A selection: the time from the start to the end, on some rows.
#[derive(Debug)]
pub struct TimeSelection {
    pub start_beat: Beat,
    pub end_beat: Beat,
    pub lanes: Vec<LaneRef>,
}

/// Rows with those of another list that are not there yet behind them, in
/// order.
pub open spec fn united(lanes: Seq<LaneRef>, more: Seq<LaneRef>) -> Seq<LaneRef>
    decreases more.len(),
{
    if more.len() == 0 {
        lanes
    } else {
        let front = united(lanes, more.drop_last());
        if front.contains(more.last()) {
            front
        } else {
            front.push(more.last())
        }
    }
}

/// Ids, each once, in the order in which they first come.
pub open spec fn distinct(ids: Seq<u32>) -> Seq<u32>
    decreases ids.len(),
{
    if ids.len() == 0 {
        Seq::empty()
    } else {
        let front = distinct(ids.drop_last());
        if front.contains(ids.last()) {
            front
        } else {
            front.push(ids.last())
        }
    }
}

/// The tracks that rows belong to.
pub open spec fn tracks_of(lanes: Seq<LaneRef>) -> Seq<u32> {
    lanes.map_values(|l: LaneRef| track_of(l))
}

/// The tracks whose own row is among rows.
pub open spec fn track_rows_of(lanes: Seq<LaneRef>) -> Seq<u32>
    decreases lanes.len(),
{
    if lanes.len() == 0 {
        Seq::empty()
    } else {
        let front = track_rows_of(lanes.drop_last());
        match lanes.last() {
            LaneRef::Track(id) => front.push(id),
            _ => front,
        }
    }
}

/// The earlier of two positions; the first if they are the same, or if one of
/// them is no number the other.
pub open spec fn earlier(a: Beat, b: Beat) -> Beat {
    if a.is_nan() || b.lt(a) {
        b
    } else {
        a
    }
}

/// The later of two positions; the first if they are the same, or if one of them
/// is no number the other.
pub open spec fn later(a: Beat, b: Beat) -> Beat {
    if a.is_nan() || a.lt(b) {
        b
    } else {
        a
    }
}

fn earlier_of(a: Beat, b: Beat) -> (r: Beat)
    ensures
        r == earlier(a, b),
{
    if a.is_nan() || b.lt(a) {
        b
    } else {
        a
    }
}

fn later_of(a: Beat, b: Beat) -> (r: Beat)
    ensures
        r == later(a, b),
{
    if a.is_nan() || a.lt(b) {
        b
    } else {
        a
    }
}

fn has_row(lanes: &Vec<LaneRef>, lane: LaneRef) -> (r: bool)
    ensures
        r == lanes@.contains(lane),
{
    let mut i: usize = 0;
    while i < lanes.len()
        invariant
            i <= lanes@.len(),
            forall|k: int| 0 <= k < i ==> #[trigger] lanes@[k] != lane,
        decreases lanes@.len() - i,
    {
        if lanes[i] == lane {
            return true;
        }
        i += 1;
    }
    false
}

fn has_id(ids: &Vec<u32>, id: u32) -> (r: bool)
    ensures
        r == ids@.contains(id),
{
    let mut i: usize = 0;
    while i < ids.len()
        invariant
            i <= ids@.len(),
            forall|k: int| 0 <= k < i ==> #[trigger] ids@[k] != id,
        decreases ids@.len() - i,
    {
        if ids[i] == id {
            return true;
        }
        i += 1;
    }
    false
}

/// Ids, each once, in the order in which they first come.
pub fn distinct_ids(ids: &Vec<u32>) -> (r: Vec<u32>)
    ensures
        r@ == distinct(ids@),
{
    let mut r: Vec<u32> = Vec::new();
    let mut i: usize = 0;
    assert(ids@.take(0) =~= Seq::<u32>::empty());
    while i < ids.len()
        invariant
            i <= ids@.len(),
            r@ == distinct(ids@.take(i as int)),
        decreases ids@.len() - i,
    {
        assert(ids@.take(i + 1).drop_last() =~= ids@.take(i as int));
        if !has_id(&r, ids[i]) {
            r.push(ids[i]);
        }
        i += 1;
    }
    assert(ids@.take(i as int) =~= ids@);
    r
}

impl TimeSelection {
    /// The time between two positions, whichever is first, on some rows. `width`
    /// is how far they are apart. None without rows, and none without a width.
    pub fn new(a: Beat, b: Beat, width: Beat, lanes: Vec<LaneRef>) -> (r: Option<TimeSelection>)
        ensures
            r is None == (lanes@.len() == 0 || width.le(Beat { bits: EPSILON })),
            r matches Some(s) ==> s.lanes@ == lanes@ && s.start_beat == (if a.le(b) {
                a
            } else {
                b
            }) && s.end_beat == (if a.le(b) {
                b
            } else {
                a
            }),
    {
        let (start_beat, end_beat) = if a.le(b) {
            (a, b)
        } else {
            (b, a)
        };
        if lanes.len() == 0 || width.le(Beat { bits: EPSILON }) {
            return None;
        }
        Some(TimeSelection { start_beat, end_beat, lanes })
    }

    /// Whether the selection is on a row.
    pub fn has_lane(&self, lane: LaneRef) -> (r: bool)
        ensures
            r == self.lanes@.contains(lane),
    {
        has_row(&self.lanes, lane)
    }

    /// Whether the selection is on any row of a track.
    pub fn has_track(&self, track_id: u32) -> (r: bool)
        ensures
            r == tracks_of(self.lanes@).contains(track_id),
    {
        let ghost ids = tracks_of(self.lanes@);
        let mut i: usize = 0;
        while i < self.lanes.len()
            invariant
                ids == tracks_of(self.lanes@),
                i <= self.lanes@.len(),
                forall|k: int| 0 <= k < i ==> #[trigger] ids[k] != track_id,
            decreases self.lanes@.len() - i,
        {
            if self.lanes[i].track_id() == track_id {
                assert(ids[i as int] == track_id);
                return true;
            }
            i += 1;
        }
        false
    }

    /// Whether the selection and what lies from `start` to `end` have time in
    /// common. Touching is not enough.
    pub fn intersects(&self, start: Beat, end: Beat) -> (r: bool)
        ensures
            r == (start.lt(self.end_beat) && self.start_beat.lt(end)),
    {
        start.lt(self.end_beat) && self.start_beat.lt(end)
    }

    /// Whether the selection holds the time from `start` to `end`. `outer` are its
    /// start, a little earlier, and its end, a little later: what sticks out by less
    /// is held too.
    pub fn contains_span(&self, start: Beat, end: Beat, outer: (Beat, Beat)) -> (r: bool)
        requires
            outer.0.le(self.start_beat),
            self.end_beat.le(outer.1),
        ensures
            r == (outer.0.le(start) && end.le(outer.1)),
            self.start_beat.le(start) && end.le(self.end_beat) ==> r,
    {
        outer.0.le(start) && end.le(outer.1)
    }

    /// Whether the selection holds a position. `outer` are its start, a little
    /// earlier, and its end, a little later.
    pub fn contains_beat(&self, beat: Beat, outer: (Beat, Beat)) -> (r: bool)
        requires
            outer.0.le(self.start_beat),
            self.end_beat.le(outer.1),
        ensures
            r == (outer.0.le(beat) && beat.lt(outer.1)),
            self.start_beat.le(beat) && beat.lt(self.end_beat) ==> r,
    {
        outer.0.le(beat) && beat.lt(outer.1)
    }

    /// Widens the selection so that it holds the time between two positions and
    /// some further rows.
    pub fn extend(&mut self, start: Beat, end: Beat, lanes: &Vec<LaneRef>)
        ensures
            final(self).start_beat == earlier(old(self).start_beat, earlier(start, end)),
            final(self).end_beat == later(old(self).end_beat, later(start, end)),
            final(self).lanes@ == united(old(self).lanes@, lanes@),
    {
        self.start_beat = earlier_of(self.start_beat, earlier_of(start, end));
        self.end_beat = later_of(self.end_beat, later_of(start, end));
        let ghost before = self.lanes@;
        let ghost now = (self.start_beat, self.end_beat);
        let mut i: usize = 0;
        assert(lanes@.take(0) =~= Seq::<LaneRef>::empty());
        while i < lanes.len()
            invariant
                i <= lanes@.len(),
                self.lanes@ == united(before, lanes@.take(i as int)),
                now == (self.start_beat, self.end_beat),
            decreases lanes@.len() - i,
        {
            assert(lanes@.take(i + 1).drop_last() =~= lanes@.take(i as int));
            if !has_row(&self.lanes, lanes[i]) {
                self.lanes.push(lanes[i]);
            }
            i += 1;
        }
        assert(lanes@.take(i as int) =~= lanes@);
    }

    /// The tracks whose own row the selection is on, each once.
    pub fn track_row_ids(&self) -> (r: Vec<u32>)
        ensures
            r@ == distinct(track_rows_of(self.lanes@)),
    {
        let mut ids: Vec<u32> = Vec::new();
        let mut i: usize = 0;
        assert(self.lanes@.take(0) =~= Seq::<LaneRef>::empty());
        while i < self.lanes.len()
            invariant
                i <= self.lanes@.len(),
                ids@ == track_rows_of(self.lanes@.take(i as int)),
            decreases self.lanes@.len() - i,
        {
            assert(self.lanes@.take(i + 1).drop_last() =~= self.lanes@.take(i as int));
            if let LaneRef::Track(id) = self.lanes[i] {
                ids.push(id);
            }
            i += 1;
        }
        assert(self.lanes@.take(i as int) =~= self.lanes@);
        distinct_ids(&ids)
    }

    /// The tracks that the selection is on, on whatever row, each once.
    pub fn track_ids(&self) -> (r: Vec<u32>)
        ensures
            r@ == distinct(tracks_of(self.lanes@)),
    {
        let mut ids: Vec<u32> = Vec::new();
        let mut i: usize = 0;
        while i < self.lanes.len()
            invariant
                i <= self.lanes@.len(),
                ids@.len() == i,
                forall|k: int| 0 <= k < i ==> #[trigger] ids@[k] == track_of(self.lanes@[k]),
            decreases self.lanes@.len() - i,
        {
            ids.push(self.lanes[i].track_id());
            i += 1;
        }
        assert(ids@ =~= tracks_of(self.lanes@));
        distinct_ids(&ids)
    }
}

/// Nothing comes twice, and nothing is left out or comes in.
pub proof fn law_distinct_ids_are_the_same_ids(ids: Seq<u32>)
    ensures
        distinct(ids).no_duplicates(),
        forall|id: u32| #[trigger] distinct(ids).contains(id) <==> ids.contains(id),
    decreases ids.len(),
{
    if ids.len() > 0 {
        let front = distinct(ids.drop_last());
        let last = ids.last();
        law_distinct_ids_are_the_same_ids(ids.drop_last());
        let all = distinct(ids);
        assert forall|id: u32| #[trigger] all.contains(id) <==> ids.contains(id) by {
            assert(front.contains(id) <==> ids.drop_last().contains(id));
            if ids.contains(id) {
                let k = choose|k: int| 0 <= k < ids.len() && ids[k] == id;
                if k < ids.len() - 1 {
                    assert(ids.drop_last()[k] == id);
                    let j = choose|j: int| 0 <= j < front.len() && front[j] == id;
                    assert(all[j] == id);
                } else if !front.contains(last) {
                    assert(all[front.len() as int] == id);
                }
            }
            if all.contains(id) {
                let j = choose|j: int| 0 <= j < all.len() && all[j] == id;
                if j < front.len() {
                    assert(front[j] == id);
                    let k = choose|k: int| 0 <= k < ids.len() - 1 && ids.drop_last()[k] == id;
                    assert(ids[k] == id);
                } else {
                    assert(ids[ids.len() - 1] == id);
                }
            }
        }
        if !front.contains(last) {
            assert forall|i: int, j: int| 0 <= i < all.len() && 0 <= j < all.len() && i != j implies all[i] != all[j] by {
                if i < front.len() && j < front.len() {
                } else if i < front.len() {
                    assert(front.contains(front[i]));
                } else {
                    assert(front.contains(front[j]));
                }
            }
        }
    }
}

/// A selection that was widened holds what it held, and what it was widened by.
pub proof fn law_widening_holds_both(lanes: Seq<LaneRef>, more: Seq<LaneRef>, lane: LaneRef)
    ensures
        united(lanes, more).contains(lane) <==> lanes.contains(lane) || more.contains(lane),
    decreases more.len(),
{
    if more.len() > 0 {
        let front = united(lanes, more.drop_last());
        law_widening_holds_both(lanes, more.drop_last(), lane);
        let all = united(lanes, more);
        if more.contains(lane) {
            let k = choose|k: int| 0 <= k < more.len() && more[k] == lane;
            if k < more.len() - 1 {
                assert(more.drop_last()[k] == lane);
            } else if !front.contains(lane) {
                assert(all[front.len() as int] == lane);
            }
        }
        if front.contains(lane) {
            let j = choose|j: int| 0 <= j < front.len() && front[j] == lane;
            assert(all[j] == lane);
            if more.drop_last().contains(lane) {
                let k = choose|k: int| 0 <= k < more.len() - 1 && more.drop_last()[k] == lane;
                assert(more[k] == lane);
            }
        }
        if all.contains(lane) && !front.contains(lane) {
            let j = choose|j: int| 0 <= j < all.len() && all[j] == lane;
            if j < front.len() {
                assert(front[j] == lane);
            }
            assert(more[more.len() - 1] == lane);
        }
    }
}

/// The earlier and the later of two positions are one of them each, and none of them is
/// earlier or later.
pub proof fn law_the_earlier_is_not_the_later(a: Beat, b: Beat)
    requires
        !a.is_nan(),
        !b.is_nan(),
    ensures
        earlier(a, b) == a || earlier(a, b) == b,
        later(a, b) == a || later(a, b) == b,
        earlier(a, b).le(a) && earlier(a, b).le(b),
        a.le(later(a, b)) && b.le(later(a, b)),
{
}

/// A track is among those whose own row is selected if and only if that is.
pub proof fn law_rows_tell_their_tracks(lanes: Seq<LaneRef>, id: u32)
    ensures
        track_rows_of(lanes).contains(id) <==> exists|i: int| 0 <= i < lanes.len() && #[trigger] lanes[i] == LaneRef::Track(id),
    decreases lanes.len(),
{
    if lanes.len() > 0 {
        let front = lanes.drop_last();
        let n = lanes.len() - 1;
        law_rows_tell_their_tracks(front, id);
        let a = track_rows_of(front);
        let b = track_rows_of(lanes);
        if b.contains(id) {
            let k = choose|k: int| 0 <= k < b.len() && b[k] == id;
            if k < a.len() {
                assert(a[k] == id);
                assert(a.contains(id));
                let i = choose|i: int| 0 <= i < front.len() && #[trigger] front[i] == LaneRef::Track(id);
                assert(lanes[i] == LaneRef::Track(id));
            } else {
                assert(lanes[n] == LaneRef::Track(id));
            }
        }
        if exists|i: int| 0 <= i < lanes.len() && #[trigger] lanes[i] == LaneRef::Track(id) {
            let i = choose|i: int| 0 <= i < lanes.len() && #[trigger] lanes[i] == LaneRef::Track(id);
            if i < n {
                assert(front[i] == LaneRef::Track(id));
                let k = choose|k: int| 0 <= k < a.len() && a[k] == id;
                assert(b[k] == id);
            } else {
                assert(b[a.len() as int] == id);
            }
        }
    }
}

} // verus!
