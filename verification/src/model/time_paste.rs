//! Taking time out and pasting it.

use super::automation::{AutomationClip, AutomationLane, LaneModel};
use super::clip::Clip;
use super::ids;
use super::ids::hand_out;
use super::lookup;
use super::song::{Song, SongModel};
use super::time_ops::{CopiedModel, TimeRangeCopy, TimeRangeModel};
use super::time_selection::EPSILON;
use super::time_shift;
use super::time_shift::{SongSums, SplitSums};
use super::track::TrackModel;
use super::track_ids;
use super::MASTER_TRACK_ID;
use crate::beat::Beat;
use crate::model;
use crate::scale::ScaleChange;
use vstd::prelude::*;

verus! {

// ---------------------------------------------------------------------------
// Taking time out
// ---------------------------------------------------------------------------

/// Whether a position lies in a range: at its start or after, and before its
/// end.
pub open spec fn lies_in(x: Beat, a: Beat, b: Beat) -> bool {
    a.le(x) && x.lt(b)
}

/// The clips that do not start in a range.
pub open spec fn clips_outside(clips: Seq<Clip>, a: Beat, b: Beat) -> Seq<Clip> {
    clips.filter(|c: Clip| !lies_in(c.start_beat, a, b))
}

/// The clips of a lane that do not start in a range.
pub open spec fn parts_outside(clips: Seq<AutomationClip>, a: Beat, b: Beat) -> Seq<AutomationClip> {
    clips.filter(|c: AutomationClip| !lies_in(c.start_beat, a, b))
}

/// The changes of key that do not lie in a range.
pub open spec fn changes_outside(changes: Seq<ScaleChange>, a: Beat, b: Beat) -> Seq<ScaleChange> {
    changes.filter(|c: ScaleChange| !lies_in(c.beat, a, b))
}

/// A lane without the clips that start in a range.
pub open spec fn cleared_lane(lane: LaneModel, a: Beat, b: Beat) -> LaneModel {
    LaneModel { clips: parts_outside(lane.clips, a, b), ..lane }
}

/// Lanes without the clips that start in a range.
pub open spec fn cleared_lanes(lanes: Seq<LaneModel>, a: Beat, b: Beat) -> Seq<LaneModel> {
    lanes.map_values(|l: LaneModel| cleared_lane(l, a, b))
}

/// A track without the clips that start in a range.
pub open spec fn cleared_track(t: TrackModel, a: Beat, b: Beat) -> TrackModel {
    TrackModel {
        clips: clips_outside(t.clips, a, b),
        automation_lanes: cleared_lanes(t.automation_lanes, a, b),
        ..t
    }
}

/// A song without the clips that start in a range.
pub open spec fn cleared(song: SongModel, a: Beat, b: Beat) -> SongModel {
    SongModel {
        tracks: song.tracks.map_values(|t: TrackModel| cleared_track(t, a, b)),
        song_lanes: cleared_lanes(song.song_lanes, a, b),
        ..song
    }
}

proof fn lemma_filter_step<A>(s: Seq<A>, i: int, p: spec_fn(A) -> bool)
    requires
        0 <= i < s.len(),
    ensures
        s.take(0).filter(p) == Seq::<A>::empty(),
        s.take(i + 1).filter(p) == if p(s[i]) {
            s.take(i).filter(p).push(s[i])
        } else {
            s.take(i).filter(p)
        },
{
    reveal(Seq::filter);
    assert(s.take(i + 1).drop_last() =~= s.take(i));
    assert(s.take(i + 1).last() == s[i]);
}

fn is_inside(x: Beat, a: Beat, b: Beat) -> (r: bool)
    ensures
        r == lies_in(x, a, b),
{
    a.le(x) && x.lt(b)
}

fn keep_clips(clips: &Vec<Clip>, a: Beat, b: Beat) -> (r: Vec<Clip>)
    ensures
        r@ == clips_outside(clips@, a, b),
{
    let ghost p = |c: Clip| !lies_in(c.start_beat, a, b);
    let mut r: Vec<Clip> = Vec::new();
    let mut i: usize = 0;
    assert(r@ =~= clips@.take(0).filter(p)) by {
        reveal(Seq::filter);
    }
    while i < clips.len()
        invariant
            p == (|c: Clip| !lies_in(c.start_beat, a, b)),
            i <= clips@.len(),
            r@ == clips@.take(i as int).filter(p),
        decreases clips@.len() - i,
    {
        proof {
            lemma_filter_step(clips@, i as int, p);
        }
        if !is_inside(clips[i].start_beat, a, b) {
            r.push(clips[i]);
        }
        i += 1;
    }
    assert(clips@.take(i as int) =~= clips@);
    r
}

fn keep_parts(clips: &Vec<AutomationClip>, a: Beat, b: Beat) -> (r: Vec<AutomationClip>)
    ensures
        r@ == parts_outside(clips@, a, b),
{
    let ghost p = |c: AutomationClip| !lies_in(c.start_beat, a, b);
    let mut r: Vec<AutomationClip> = Vec::new();
    let mut i: usize = 0;
    assert(r@ =~= clips@.take(0).filter(p)) by {
        reveal(Seq::filter);
    }
    while i < clips.len()
        invariant
            p == (|c: AutomationClip| !lies_in(c.start_beat, a, b)),
            i <= clips@.len(),
            r@ == clips@.take(i as int).filter(p),
        decreases clips@.len() - i,
    {
        proof {
            lemma_filter_step(clips@, i as int, p);
        }
        if !is_inside(clips[i].start_beat, a, b) {
            r.push(clips[i]);
        }
        i += 1;
    }
    assert(clips@.take(i as int) =~= clips@);
    r
}

/// The changes of key that do not lie in a range.
pub fn keep_changes(changes: &Vec<ScaleChange>, a: Beat, b: Beat) -> (r: Vec<ScaleChange>)
    ensures
        r@ == changes_outside(changes@, a, b),
{
    let ghost p = |c: ScaleChange| !lies_in(c.beat, a, b);
    let mut r: Vec<ScaleChange> = Vec::new();
    let mut i: usize = 0;
    assert(r@ =~= changes@.take(0).filter(p)) by {
        reveal(Seq::filter);
    }
    while i < changes.len()
        invariant
            p == (|c: ScaleChange| !lies_in(c.beat, a, b)),
            i <= changes@.len(),
            r@ == changes@.take(i as int).filter(p),
        decreases changes@.len() - i,
    {
        proof {
            lemma_filter_step(changes@, i as int, p);
        }
        if !is_inside(changes[i].beat, a, b) {
            r.push(changes[i]);
        }
        i += 1;
    }
    assert(changes@.take(i as int) =~= changes@);
    r
}

fn clear_lanes(lanes: &mut Vec<AutomationLane>, a: Beat, b: Beat)
    ensures
        model::models(final(lanes)@) == cleared_lanes(model::models(old(lanes)@), a, b),
{
    let ghost before = model::models(lanes@);
    let mut i: usize = 0;
    while i < lanes.len()
        invariant
            before == model::models(old(lanes)@),
            lanes@.len() == before.len(),
            i <= lanes@.len(),
            forall|k: int|
                0 <= k < before.len() ==> (#[trigger] lanes@[k])@ == if k < i {
                    cleared_lane(before[k], a, b)
                } else {
                    before[k]
                },
        decreases lanes@.len() - i,
    {
        let ghost now = lanes@;
        let lane = &mut lanes[i];
        lane.clips = keep_parts(&lane.clips, a, b);
        proof {
            assert(lanes@[i as int]@ =~= cleared_lane(before[i as int], a, b));
            assert forall|k: int| 0 <= k < before.len() && k != i implies lanes@[k] == #[trigger] now[k] by {}
        }
        i += 1;
    }
    assert(model::models(lanes@) =~= cleared_lanes(before, a, b));
}

impl Song {
    /// Takes out the clips that start in a range, on tracks and on lanes.
    pub fn clear_range(&mut self, a: Beat, b: Beat)
        ensures
            final(self)@ == cleared(old(self)@, a, b),
    {
        let ghost before = self@;
        let mut i: usize = 0;
        while i < self.tracks.len()
            invariant
                before == old(self)@,
                self.tracks@.len() == before.tracks.len(),
                i <= self.tracks@.len(),
                forall|k: int|
                    0 <= k < before.tracks.len() ==> (#[trigger] self.tracks@[k])@ == if k < i {
                        cleared_track(before.tracks[k], a, b)
                    } else {
                        before.tracks[k]
                    },
                self@ == (SongModel { tracks: self@.tracks, ..before }),
            decreases self.tracks@.len() - i,
        {
            let ghost now = self.tracks@;
            let track = &mut self.tracks[i];
            let ghost was = track@;
            track.clips = keep_clips(&track.clips, a, b);
            clear_lanes(&mut track.automation_lanes, a, b);
            proof {
                assert(self.tracks@[i as int]@ =~= cleared_track(before.tracks[i as int], a, b));
                assert forall|k: int| 0 <= k < before.tracks.len() && k != i implies self.tracks@[k]
                    == #[trigger] now[k] by {}
                assert(self@ =~= (SongModel { tracks: self@.tracks, ..before }));
            }
            i += 1;
        }
        clear_lanes(&mut self.song_lanes, a, b);
        assert(self@.tracks =~= before.tracks.map_values(|t: TrackModel| cleared_track(t, a, b)));
        assert(self@ =~= cleared(before, a, b));
    }

    /// Takes the time between two places out, and closes up: clips that go over one
    /// of them are split there, those that start between them are taken out, and
    /// those behind are moved up. None, and nothing is done, if there is no time
    /// between the places. `len` is how much time there is, `at_start` and `at_end`
    /// are what clips are split with at the one and the other, and `to` is where what
    /// is left comes to lie.
    pub fn delete_time_range(
        &mut self,
        a: Beat,
        b: Beat,
        len: Beat,
        at_start: &SongSums<SplitSums>,
        at_end: &SongSums<SplitSums>,
        to: &SongSums<(Beat, Beat)>,
    ) -> (r: Option<Ripple>)
        requires
            a.is_finite() && b.is_finite() && a.lt(b) ==> at_start.fits(old(self)@) && at_end.fits(
                time_shift::split_song(old(self)@, a, *at_start),
            ) && to.fits(without_range(old(self)@, a, b, *at_start, *at_end)),
        ensures
            r is Some == (a.is_finite() && b.is_finite() && a.lt(b)),
            r is None ==> final(self)@ == old(self)@,
            r matches Some(ripple) ==> ripple == (Ripple { from_beat: b, delta_beats: len.neg() }) && final(self)@
                == time_shift::moved_song(without_range(old(self)@, a, b, *at_start, *at_end), b, *to),
    {
        if !can_delete(a, b) {
            return None;
        }
        self.split_clips_at(a, at_start);
        self.split_clips_at(b, at_end);
        self.clear_range(a, b);
        self.move_clips_from(b, to);
        Some(Ripple { from_beat: b, delta_beats: len.neg() })
    }

    /// Puts time in at a place: clips that go over it are split there, and what lies
    /// behind is moved. None, and nothing is done, if there is no such place or no
    /// time. `sums` is what clips are split with, and `to` where they come to lie.
    pub fn insert_time(
        &mut self,
        at: Beat,
        len: Beat,
        sums: &SongSums<SplitSums>,
        to: &SongSums<(Beat, Beat)>,
    ) -> (r: Option<Ripple>)
        requires
            len.is_finite() && (Beat { bits: 0 }).lt(len) && at.is_finite() && (Beat { bits: 0 }).le(at)
                ==> sums.fits(old(self)@) && to.fits(time_shift::split_song(old(self)@, at, *sums)),
        ensures
            r is Some == (len.is_finite() && (Beat { bits: 0 }).lt(len) && at.is_finite() && (Beat { bits: 0 }).le(at)),
            r is None ==> final(self)@ == old(self)@,
            r matches Some(ripple) ==> ripple == (Ripple { from_beat: at, delta_beats: len }) && final(self)@
                == time_shift::moved_song(time_shift::split_song(old(self)@, at, *sums), at, *to),
    {
        if !can_insert(at, len) {
            return None;
        }
        self.split_clips_at(at, sums);
        self.move_clips_from(at, to);
        Some(Ripple { from_beat: at, delta_beats: len })
    }
}

/// A song without what starts in a range, split at both its ends.
pub open spec fn without_range(
    song: SongModel,
    a: Beat,
    b: Beat,
    at_start: SongSums<SplitSums>,
    at_end: SongSums<SplitSums>,
) -> SongModel {
    cleared(time_shift::split_song(time_shift::split_song(song, a, at_start), b, at_end), a, b)
}

/// Whether a range can be taken out: it has a start, an end and a length.
pub fn can_delete(a: Beat, b: Beat) -> (r: bool)
    ensures
        r == (a.is_finite() && b.is_finite() && a.lt(b)),
{
    a.is_finite() && b.is_finite() && a.lt(b)
}

/// Where a section starts and ends when a range is taken out, see [`section_without`].
pub open spec fn section_cut(edges: (Beat, Beat), moved: (Beat, Beat), a: Beat, b: Beat) -> (Beat, Beat) {
    (
        if edges.0.lt(a) {
            edges.0
        } else if a.lt(moved.0) {
            moved.0
        } else {
            a
        },
        if edges.1.le(a) {
            edges.1
        } else if edges.1.le(b) {
            a
        } else {
            moved.1
        },
    )
}

/// Where a section starts and ends when a range is taken out: what lies before
/// stays, what lies within closes on the start of the range, and what lies
/// behind moves up. `moved` is where the edges would be if they moved.
pub fn section_without(edges: (Beat, Beat), moved: (Beat, Beat), a: Beat, b: Beat) -> (r: (Beat, Beat))
    ensures
        r == section_cut(edges, moved, a, b),
        r.0 == if edges.0.lt(a) {
            edges.0
        } else if a.lt(moved.0) {
            moved.0
        } else {
            a
        },
        r.1 == if edges.1.le(a) {
            edges.1
        } else if edges.1.le(b) {
            a
        } else {
            moved.1
        },
{
    let start = if edges.0.lt(a) {
        edges.0
    } else if a.lt(moved.0) {
        moved.0
    } else {
        a
    };
    let end = if edges.1.le(a) {
        edges.1
    } else if edges.1.le(b) {
        a
    } else {
        moved.1
    };
    (start, end)
}

/// Whether a section is left when it has the given length.
pub fn section_stays(len: Beat) -> (r: bool)
    ensures
        r == (Beat { bits: EPSILON }).lt(len),
{
    (Beat { bits: EPSILON }).lt(len)
}

/// Whether time can be put in.
pub fn can_insert(at: Beat, len: Beat) -> (r: bool)
    ensures
        r == (len.is_finite() && (Beat { bits: 0 }).lt(len) && at.is_finite() && (Beat { bits: 0 }).le(at)),
{
    len.is_finite() && Beat::zero().lt(len) && at.is_finite() && Beat::zero().le(at)
}

/// Whether a section grows when time is put in: it goes on over the place.
pub fn section_grows(start: Beat, end: Beat, at: Beat) -> (r: bool)
    ensures
        r == (start.lt(at) && at.lt(end)),
{
    start.lt(at) && at.lt(end)
}

/// Whether a section moves when time is put in: it starts there or behind.
pub fn section_moves(start: Beat, at: Beat) -> (r: bool)
    ensures
        r == at.le(start),
{
    at.le(start)
}

/// When a range was taken out, no clip starts in it.
pub proof fn law_nothing_starts_in_a_cleared_range(song: SongModel, a: Beat, b: Beat, t: int, c: int)
    requires
        0 <= t < song.tracks.len(),
        0 <= c < cleared(song, a, b).tracks[t].clips.len(),
    ensures
        !lies_in(cleared(song, a, b).tracks[t].clips[c].start_beat, a, b),
        song.tracks[t].clips.contains(cleared(song, a, b).tracks[t].clips[c]),
{
    let p = |c: Clip| !lies_in(c.start_beat, a, b);
    let clips = song.tracks[t].clips;
    assert(cleared(song, a, b).tracks[t] == cleared_track(song.tracks[t], a, b));
    lemma_kept(clips, p, c);
}

/// Taking a range out leaves the contents as they are, each under an id of its own.
pub proof fn law_clearing_keeps_the_contents(song: SongModel, a: Beat, b: Beat)
    ensures
        cleared(song, a, b).clip_contents == song.clip_contents,
        song.contents_once() ==> cleared(song, a, b).contents_once(),
{
}

proof fn lemma_kept<A>(s: Seq<A>, p: spec_fn(A) -> bool, i: int)
    requires
        0 <= i < s.filter(p).len(),
    ensures
        p(s.filter(p)[i]),
        s.contains(s.filter(p)[i]),
    decreases s.len(),
{
    reveal(Seq::filter);
    if s.len() > 0 {
        let front = s.drop_last();
        let kept = front.filter(p);
        if i < kept.len() {
            lemma_kept(front, p, i);
            let k = choose|k: int| 0 <= k < front.len() && front[k] == kept[i];
            assert(s[k] == kept[i]);
        } else {
            assert(s[s.len() - 1] == s.last());
        }
    }
}

// ---------------------------------------------------------------------------
// Pasting
// ---------------------------------------------------------------------------

/// How the time behind a place moved.
#[derive(Clone, Copy, Debug, PartialEq, Eq, Structural)]
pub struct Ripple {
    pub from_beat: Beat,
    pub delta_beats: Beat,
}

/// What pasting did to a song.
#[derive(Debug)]
pub struct Pasted {
    /// How the time behind the place moved.
    pub ripple: Ripple,
    /// The contents that were made anew, from and to which id.
    pub created: Vec<(u32, u32)>,
    /// The id of the next content.
    pub next_content_id: u32,
    /// The ids of the sections that are pasted, in order.
    pub section_ids: Vec<u32>,
    /// The id of the next section.
    pub next_section_id: u32,
}

/// What pasting did.
#[derive(Debug)]
pub struct PastedTime {
    pub ripple: Ripple,
    /// The ids of the sections that were pasted, in order.
    pub section_ids: Vec<u32>,
}

/// What a clip of a copy will show: decided so far.
#[verifier::ext_equal]
pub struct Resolved {
    /// The contents that the song has.
    pub existing: Seq<u32>,
    /// The id of the next content.
    pub next: u32,
    /// What stands for a content of the copy.
    pub remap: Seq<(u32, u32)>,
    /// The contents of the copy that are made anew, and their ids.
    pub created: Seq<(u32, u32)>,
}

/// What stands for a content.
pub open spec fn stand_in(remap: Seq<(u32, u32)>, id: u32, from: int) -> Option<u32>
    decreases remap.len() - from,
{
    if from < 0 || from >= remap.len() {
        None
    } else if remap[from].0 == id {
        Some(remap[from].1)
    } else {
        stand_in(remap, id, from + 1)
    }
}

/// The ids of contents that were copied.
pub open spec fn copied_ids(contents: Seq<CopiedModel>) -> Seq<u32> {
    contents.map_values(|c: CopiedModel| c.id)
}

/// Decides what a clip will show that showed `id`. What was decided once stays.
/// In the project that the copy is from, what is still there is shared; else it
/// is made anew from the copy. What is in neither stays as it is in that
/// project, and is dropped in another.
pub open spec fn resolve(st: Resolved, id: u32, copies: Seq<u32>, same_project: bool) -> (Resolved, Option<u32>) {
    match stand_in(st.remap, id, 0) {
        Some(to) => (st, Some(to)),
        None => if same_project && st.existing.contains(id) {
            (Resolved { remap: st.remap.push((id, id)), ..st }, Some(id))
        } else if copies.contains(id) {
            let to = ids::fresh(st.next);
            (
                Resolved {
                    existing: st.existing.push(to),
                    next: ids::after(to),
                    remap: st.remap.push((id, to)),
                    created: st.created.push((id, to)),
                },
                Some(to),
            )
        } else if same_project {
            (Resolved { remap: st.remap.push((id, id)), ..st }, Some(id))
        } else {
            (st, None)
        },
    }
}

/// A clip to be pasted: which of the copy, on which track, showing what.
#[derive(Clone, Copy, Debug, PartialEq, Eq, Structural)]
pub struct PastedClip {
    pub from: usize,
    pub track: usize,
    pub content_id: u32,
}

/// A clip of a lane to be pasted: which of the copy, on which track if it is not
/// a lane of the song, on which lane, showing what.
#[derive(Clone, Copy, Debug, PartialEq, Eq, Structural)]
pub struct PastedPart {
    pub from: usize,
    pub track: Option<usize>,
    pub lane: usize,
    pub content_id: u32,
}

/// The clips to be pasted of the first `n` of a copy, and what they will show.
pub open spec fn plan_clips(
    clips: Seq<(u32, Clip)>,
    tracks: Seq<TrackModel>,
    copies: Seq<u32>,
    same_project: bool,
    start: Resolved,
    n: nat,
) -> (Resolved, Seq<PastedClip>)
    decreases n,
{
    if n == 0 {
        (start, Seq::empty())
    } else {
        let (st, front) = plan_clips(clips, tracks, copies, same_project, start, (n - 1) as nat);
        let (id, clip) = clips[n - 1];
        let (next, to) = resolve(st, clip.content_id, copies, same_project);
        match (to, lookup::track_place(tracks, id)) {
            (Some(content_id), Some(t)) => (
                next,
                front.push(PastedClip { from: (n - 1) as usize, track: t as usize, content_id }),
            ),
            _ => (next, front),
        }
    }
}

/// Where a lane is: the place of its track if it is not a lane of the song, and
/// its place there.
pub open spec fn lane_at(song: SongModel, track_id: u32, lane_id: u32) -> Option<(Option<usize>, usize)> {
    if track_id == MASTER_TRACK_ID {
        match ids::place(track_ids::lane_ids(song.song_lanes), lane_id) {
            Some(l) => Some((None, l as usize)),
            None => None,
        }
    } else {
        match lookup::track_place(song.tracks, track_id) {
            Some(t) => match ids::place(track_ids::lane_ids(song.tracks[t].automation_lanes), lane_id) {
                Some(l) => Some((Some(t as usize), l as usize)),
                None => None,
            },
            None => None,
        }
    }
}

/// The clips of lanes to be pasted of the first `n` of a copy, and what they will
/// show.
pub open spec fn plan_parts(
    parts: Seq<(u32, u32, AutomationClip)>,
    song: SongModel,
    copies: Seq<u32>,
    same_project: bool,
    start: Resolved,
    n: nat,
) -> (Resolved, Seq<PastedPart>)
    decreases n,
{
    if n == 0 {
        (start, Seq::empty())
    } else {
        let (st, front) = plan_parts(parts, song, copies, same_project, start, (n - 1) as nat);
        let (track_id, lane_id, clip) = parts[n - 1];
        let (next, to) = resolve(st, clip.content_id, copies, same_project);
        match (to, lane_at(song, track_id, lane_id)) {
            (Some(content_id), Some(at)) => (
                next,
                front.push(PastedPart { from: (n - 1) as usize, track: at.0, lane: at.1, content_id }),
            ),
            _ => (next, front),
        }
    }
}

/// The contents that a song has.
pub open spec fn content_ids(song: SongModel) -> Seq<u32> {
    song.clip_contents.map_values(|c: (u32, super::clip::ContentModel)| c.0)
}

/// Where deciding starts.
pub open spec fn undecided(song: SongModel, next: u32) -> Resolved {
    Resolved { existing: content_ids(song), next, remap: Seq::empty(), created: Seq::empty() }
}

/// What is to be done to paste a copy.
#[derive(Debug)]
pub struct PastePlan {
    /// The contents of the copy to be made anew, and their ids, in order.
    pub created: Vec<(u32, u32)>,
    pub clips: Vec<PastedClip>,
    pub automation: Vec<PastedPart>,
    /// The id of the next content after that.
    pub next_content_id: u32,
}

struct Resolver {
    existing: Vec<u32>,
    next: u32,
    remap: Vec<(u32, u32)>,
    created: Vec<(u32, u32)>,
}

impl Resolver {
    spec fn state(self) -> Resolved {
        Resolved {
            existing: self.existing@,
            next: self.next,
            remap: self.remap@,
            created: self.created@,
        }
    }

    fn decided(&self, id: u32) -> (r: Option<u32>)
        ensures
            r == stand_in(self.remap@, id, 0),
    {
        let mut i: usize = 0;
        while i < self.remap.len()
            invariant
                i <= self.remap@.len(),
                stand_in(self.remap@, id, 0) == stand_in(self.remap@, id, i as int),
            decreases self.remap@.len() - i,
        {
            if self.remap[i].0 == id {
                return Some(self.remap[i].1);
            }
            i += 1;
        }
        None
    }

    fn resolve(&mut self, id: u32, copies: &Vec<u32>, same_project: bool) -> (r: Option<u32>)
        ensures
            (final(self).state(), r) == resolve(old(self).state(), id, copies@, same_project),
    {
        if let Some(to) = self.decided(id) {
            return Some(to);
        }
        if same_project && is_among(&self.existing, id) {
            self.remap.push((id, id));
            Some(id)
        } else if is_among(copies, id) {
            let (to, next) = hand_out(self.next);
            self.existing.push(to);
            self.next = next;
            self.remap.push((id, to));
            self.created.push((id, to));
            Some(to)
        } else if same_project {
            self.remap.push((id, id));
            Some(id)
        } else {
            None
        }
    }
}

fn is_among(ids: &Vec<u32>, id: u32) -> (r: bool)
    ensures
        r == ids@.contains(id),
{
    let mut i: usize = 0;
    while i < ids.len()
        invariant
            i <= ids@.len(),
            forall|k: int| 0 <= k < i ==> #[trigger] ids@[k] != id,
        decreases ids@.len() - i,
    {
        if ids[i] == id {
            return true;
        }
        i += 1;
    }
    false
}

fn find_lane(lanes: &Vec<AutomationLane>, id: u32) -> (r: Option<usize>)
    ensures
        match r {
            Some(i) => i < lanes@.len() && ids::place(track_ids::lane_ids(model::models(lanes@)), id) == Some(i as int),
            None => ids::place(track_ids::lane_ids(model::models(lanes@)), id) is None,
        },
{
    let ghost li = track_ids::lane_ids(model::models(lanes@));
    let mut i: usize = 0;
    while i < lanes.len()
        invariant
            li == track_ids::lane_ids(model::models(lanes@)),
            i <= lanes@.len(),
            ids::place_from(li, id, 0) == ids::place_from(li, id, i as int),
        decreases lanes@.len() - i,
    {
        assert(li[i as int] == lanes@[i as int].id);
        if lanes[i].id == id {
            return Some(i);
        }
        i += 1;
    }
    None
}

impl Song {
    /// Where a lane is, see [`lane_at`].
    fn find_lane_at(&self, track_id: u32, lane_id: u32) -> (r: Option<(Option<usize>, usize)>)
        ensures
            r == lane_at(self@, track_id, lane_id),
    {
        if track_id == MASTER_TRACK_ID {
            match find_lane(&self.song_lanes, lane_id) {
                Some(l) => Some((None, l)),
                None => None,
            }
        } else {
            match self.track_index(track_id) {
                Some(t) => {
                    assert(self@.tracks[t as int] == self.tracks@[t as int]@);
                    match find_lane(&self.tracks[t].automation_lanes, lane_id) {
                        Some(l) => Some((Some(t), l)),
                        None => None,
                    }
                },
                None => None,
            }
        }
    }

    /// What is to be done to paste a copy: which contents are made anew and under
    /// which ids, and which clips go where and show what. What has no track or no
    /// lane to go to is dropped.
    pub fn paste_plan(&self, copy: &TimeRangeCopy, same_project: bool, next_content_id: u32) -> (r: PastePlan)
        ensures
            ({
                let copies = copied_ids(copy@.contents);
                let start = undecided(self@, next_content_id);
                let (mid, clips) = plan_clips(
                    copy@.clips,
                    self@.tracks,
                    copies,
                    same_project,
                    start,
                    copy@.clips.len(),
                );
                let (end, parts) = plan_parts(
                    copy@.automation,
                    self@,
                    copies,
                    same_project,
                    mid,
                    copy@.automation.len(),
                );
                &&& r.created@ == end.created
                &&& r.next_content_id == end.next
                &&& r.clips@ == clips
                &&& r.automation@ == parts
            }),
    {
        let ghost cids = copied_ids(copy@.contents);
        let mut copies: Vec<u32> = Vec::new();
        let mut c: usize = 0;
        while c < copy.contents.len()
            invariant
                c <= copy.contents@.len(),
                copies@.len() == c,
                forall|k: int| 0 <= k < c ==> #[trigger] copies@[k] == copy.contents@[k].id,
            decreases copy.contents@.len() - c,
        {
            copies.push(copy.contents[c].id);
            c += 1;
        }
        assert(copies@ =~= cids);
        let mut existing: Vec<u32> = Vec::new();
        let mut e: usize = 0;
        while e < self.clip_contents.len()
            invariant
                e <= self.clip_contents@.len(),
                existing@.len() == e,
                forall|k: int| 0 <= k < e ==> #[trigger] existing@[k] == self.clip_contents@[k].0,
            decreases self.clip_contents@.len() - e,
        {
            existing.push(self.clip_contents[e].0);
            e += 1;
        }
        assert(existing@ =~= content_ids(self@));
        let ghost start = undecided(self@, next_content_id);
        let mut st = Resolver { existing, next: next_content_id, remap: Vec::new(), created: Vec::new() };
        assert(st.state() =~= start);
        let mut clips: Vec<PastedClip> = Vec::new();
        let mut i: usize = 0;
        while i < copy.clips.len()
            invariant
                copies@ == cids,
                i <= copy.clips@.len(),
                (st.state(), clips@) == plan_clips(
                    copy.clips@,
                    self@.tracks,
                    cids,
                    same_project,
                    start,
                    i as nat,
                ),
            decreases copy.clips@.len() - i,
        {
            let (id, clip) = copy.clips[i];
            let to = st.resolve(clip.content_id, &copies, same_project);
            if let Some(content_id) = to {
                if let Some(track) = self.track_index(id) {
                    clips.push(PastedClip { from: i, track, content_id });
                }
            }
            i += 1;
        }
        let ghost mid = st.state();
        let mut parts: Vec<PastedPart> = Vec::new();
        let mut j: usize = 0;
        while j < copy.automation.len()
            invariant
                copies@ == cids,
                j <= copy.automation@.len(),
                (st.state(), parts@) == plan_parts(
                    copy.automation@,
                    self@,
                    cids,
                    same_project,
                    mid,
                    j as nat,
                ),
            decreases copy.automation@.len() - j,
        {
            let (track_id, lane_id, clip) = copy.automation[j];
            let to = st.resolve(clip.content_id, &copies, same_project);
            if let Some(content_id) = to {
                if let Some((track, lane)) = self.find_lane_at(track_id, lane_id) {
                    parts.push(PastedPart { from: j, track, lane, content_id });
                }
            }
            j += 1;
        }
        PastePlan { created: st.created, clips, automation: parts, next_content_id: st.next }
    }
}

/// The ids that `n` sections get.
pub open spec fn section_ids(next: u32, n: nat) -> (Seq<u32>, u32)
    decreases n,
{
    if n == 0 {
        (Seq::empty(), next)
    } else {
        let (front, then_next) = section_ids(next, (n - 1) as nat);
        (front.push(ids::fresh(then_next)), ids::after(ids::fresh(then_next)))
    }
}

/// The ids that `n` sections get, and the id of the next one.
pub fn hand_out_sections(next: u32, n: usize) -> (r: (Vec<u32>, u32))
    ensures
        (r.0@, r.1) == section_ids(next, n as nat),
{
    let mut given: Vec<u32> = Vec::new();
    let mut counter: u32 = next;
    let mut i: usize = 0;
    while i < n
        invariant
            i <= n,
            (given@, counter) == section_ids(next, i as nat),
        decreases n - i,
    {
        let (id, after) = hand_out(counter);
        given.push(id);
        counter = after;
        i += 1;
    }
    (given, counter)
}

/// Sections get ids that none was given before, each another one, as long as there
/// are any left.
pub proof fn law_section_ids_are_fresh(next: u32, n: nat)
    requires
        next + n < u32::MAX,
    ensures
        section_ids(next, n).0.len() == n,
        forall|i: int| 0 <= i < n ==> #[trigger] section_ids(next, n).0[i] == ids::fresh(next) + i,
        n > 0 ==> section_ids(next, n).1 == ids::fresh(next) + n,
    decreases n,
{
    if n > 0 {
        law_section_ids_are_fresh(next, (n - 1) as nat);
    }
}

/// A content that was asked for before gets the same answer, and nothing else
/// changes.
pub proof fn law_contents_are_decided_once(st: Resolved, id: u32, copies: Seq<u32>, same_project: bool)
    ensures
        ({
            let (next, to) = resolve(st, id, copies, same_project);
            resolve(next, id, copies, same_project) == (next, to)
        }),
{
    let (next, to) = resolve(st, id, copies, same_project);
    if stand_in(st.remap, id, 0) is None && to is Some {
        lemma_stand_in_push(st.remap, id, to->0, 0);
    }
}

proof fn lemma_stand_in_push(remap: Seq<(u32, u32)>, id: u32, to: u32, from: int)
    requires
        0 <= from <= remap.len(),
        stand_in(remap, id, from) is None,
    ensures
        stand_in(remap.push((id, to)), id, from) == Some(to),
    decreases remap.len() - from,
{
    if from < remap.len() {
        assert(remap.push((id, to))[from] == remap[from]);
        lemma_stand_in_push(remap, id, to, from + 1);
    }
}

/// In the project that a copy is from, a content that is still there is shared:
/// nothing is made anew for it.
pub proof fn law_contents_that_are_there_are_shared(st: Resolved, id: u32, copies: Seq<u32>)
    requires
        stand_in(st.remap, id, 0) is None,
        st.existing.contains(id),
    ensures
        resolve(st, id, copies, true).1 == Some(id),
        resolve(st, id, copies, true).0.created == st.created,
        resolve(st, id, copies, true).0.next == st.next,
{
}

/// In another project nothing is shared: a content is made anew under an id that
/// the song has not, or is dropped.
pub proof fn law_other_projects_share_nothing(st: Resolved, id: u32, copies: Seq<u32>)
    requires
        stand_in(st.remap, id, 0) is None,
        0 < st.next < u32::MAX,
        forall|i: int| 0 <= i < st.existing.len() ==> #[trigger] st.existing[i] < st.next,
    ensures
        match resolve(st, id, copies, false).1 {
            Some(to) => copies.contains(id) && !st.existing.contains(to) && resolve(st, id, copies, false).0.created
                == st.created.push((id, to)),
            None => !copies.contains(id) && resolve(st, id, copies, false).0 == st,
        },
        ({
            let after = resolve(st, id, copies, false).0;
            forall|i: int| 0 <= i < after.existing.len() ==> #[trigger] after.existing[i] < after.next
        }),
{
}

} // verus!
