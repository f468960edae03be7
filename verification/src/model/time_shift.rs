//! Splitting clips at a place, and moving what lies behind it.

use super::automation::{AutomationClip, AutomationLane, LaneModel};
use super::clip::Clip;
use super::ids;
use super::ids::hand_out;
use super::song::{Song, SongModel};
use super::track::{Track, TrackModel};
use crate::beat::Beat;
use crate::model;
use crate::scale::ScaleChange;
use vstd::prelude::*;

verus! {

/// What a clip from `s` to `e` is reckoned with when it is split at `x`.
#[derive(Clone, Copy, Debug, PartialEq, Eq, Structural)]
pub struct SplitSums {
    /// `x - s`.
    pub left_length: Beat,
    /// `e - x`.
    pub right_length: Beat,
    /// Where in the content the clip is at `x`.
    pub right_offset: Beat,
}

/// Sums for every clip of a song.
#[derive(Debug)]
pub struct SongSums<T> {
    /// By track and clip.
    pub clips: Vec<Vec<T>>,
    /// By track, lane and clip.
    pub lanes: Vec<Vec<Vec<T>>>,
    /// By lane and clip, of the song.
    pub song_lanes: Vec<Vec<T>>,
}

/// Whether there is something for every clip of lanes.
pub open spec fn fits_lanes<T>(sums: Seq<Vec<T>>, lanes: Seq<LaneModel>) -> bool {
    &&& sums.len() == lanes.len()
    &&& forall|i: int| 0 <= i < lanes.len() ==> sums[i]@.len() == (#[trigger] lanes[i]).clips.len()
}

impl<T> SongSums<T> {
    /// Whether there is something for every clip of a song.
    pub open spec fn fits(self, song: SongModel) -> bool {
        &&& self.clips@.len() == song.tracks.len()
        &&& self.lanes@.len() == song.tracks.len()
        &&& forall|i: int|
            0 <= i < song.tracks.len() ==> self.clips@[i]@.len() == (#[trigger] song.tracks[i]).clips.len()
                && fits_lanes(self.lanes@[i]@, song.tracks[i].automation_lanes)
        &&& fits_lanes(self.song_lanes@, song.song_lanes)
    }
}

// ---------------------------------------------------------------------------
// Splitting
// ---------------------------------------------------------------------------

/// Whether something goes over a place: it starts before and ends behind it.
pub open spec fn goes_over(start: Beat, end: Beat, at: Beat) -> bool {
    start.lt(at) && at.lt(end)
}

/// The part of a clip before a place.
pub open spec fn left_of(c: Clip, at: Beat, sums: SplitSums) -> Clip {
    Clip { length_beats: sums.left_length, end_beat: at, xfade_tail_beats: Beat { bits: 0 }, ..c }
}

/// The part of a clip behind a place.
pub open spec fn right_of(c: Clip, at: Beat, sums: SplitSums, id: u32) -> Clip {
    Clip {
        id,
        start_beat: at,
        length_beats: sums.right_length,
        content_offset_beats: sums.right_offset,
        xfade_lead_beats: Beat { bits: 0 },
        ..c
    }
}

/// The part of a clip of a lane before a place.
pub open spec fn left_part(c: AutomationClip, at: Beat, sums: SplitSums) -> AutomationClip {
    AutomationClip { length_beats: sums.left_length, end_beat: at, ..c }
}

/// The part of a clip of a lane behind a place.
pub open spec fn right_part(c: AutomationClip, at: Beat, sums: SplitSums, id: u32) -> AutomationClip {
    AutomationClip {
        id,
        start_beat: at,
        length_beats: sums.right_length,
        content_offset_beats: sums.right_offset,
        ..c
    }
}

/// The clips of a track after the first `n` were split at a place, and the id of
/// the next clip. What lies behind the place comes at the end.
pub open spec fn split_clips(clips: Seq<Clip>, next: u32, at: Beat, sums: Seq<SplitSums>, n: nat) -> (Seq<Clip>, u32)
    decreases n,
{
    if n == 0 {
        (clips, next)
    } else {
        let (front, then_next) = split_clips(clips, next, at, sums, (n - 1) as nat);
        let c = clips[n - 1];
        if goes_over(c.start_beat, c.end_beat, at) {
            let id = ids::fresh(then_next);
            (
                front.update(n - 1, left_of(c, at, sums[n - 1])).push(right_of(c, at, sums[n - 1], id)),
                ids::after(id),
            )
        } else {
            (front, then_next)
        }
    }
}

/// As [`split_clips`], of a lane.
pub open spec fn split_parts(
    clips: Seq<AutomationClip>,
    next: u32,
    at: Beat,
    sums: Seq<SplitSums>,
    n: nat,
) -> (Seq<AutomationClip>, u32)
    decreases n,
{
    if n == 0 {
        (clips, next)
    } else {
        let (front, then_next) = split_parts(clips, next, at, sums, (n - 1) as nat);
        let c = clips[n - 1];
        if goes_over(c.start_beat, c.end_beat, at) {
            let id = ids::fresh(then_next);
            (
                front.update(n - 1, left_part(c, at, sums[n - 1])).push(right_part(c, at, sums[n - 1], id)),
                ids::after(id),
            )
        } else {
            (front, then_next)
        }
    }
}

/// A lane whose clips were split at a place.
pub open spec fn split_lane(l: LaneModel, at: Beat, sums: Seq<SplitSums>) -> LaneModel {
    let (clips, next_clip_id) = split_parts(l.clips, l.next_clip_id, at, sums, l.clips.len());
    LaneModel { clips, next_clip_id, ..l }
}

/// Lanes whose clips were split at a place.
pub open spec fn split_lanes(lanes: Seq<LaneModel>, at: Beat, sums: Seq<Vec<SplitSums>>) -> Seq<LaneModel> {
    Seq::new(lanes.len(), |i: int| split_lane(lanes[i], at, sums[i]@))
}

/// A track whose clips were split at a place.
pub open spec fn split_track(t: TrackModel, at: Beat, sums: Seq<SplitSums>, lanes: Seq<Vec<SplitSums>>) -> TrackModel {
    let (clips, next_clip_id) = split_clips(t.clips, t.next_clip_id, at, sums, t.clips.len());
    TrackModel { clips, next_clip_id, automation_lanes: split_lanes(t.automation_lanes, at, lanes), ..t }
}

/// A song whose clips were split at a place.
pub open spec fn split_song(song: SongModel, at: Beat, sums: SongSums<SplitSums>) -> SongModel {
    SongModel {
        tracks: Seq::new(
            song.tracks.len(),
            |i: int| split_track(song.tracks[i], at, sums.clips@[i]@, sums.lanes@[i]@),
        ),
        song_lanes: split_lanes(song.song_lanes, at, sums.song_lanes@),
        ..song
    }
}

fn is_over(start: Beat, end: Beat, at: Beat) -> (r: bool)
    ensures
        r == goes_over(start, end, at),
{
    start.lt(at) && at.lt(end)
}

proof fn lemma_split_clips(clips: Seq<Clip>, next: u32, at: Beat, sums: Seq<SplitSums>, n: nat)
    requires
        n <= clips.len(),
    ensures
        split_clips(clips, next, at, sums, n).0.len() >= clips.len(),
        forall|k: int| n <= k < clips.len() ==> #[trigger] split_clips(clips, next, at, sums, n).0[k] == clips[k],
    decreases n,
{
    if n > 0 {
        lemma_split_clips(clips, next, at, sums, (n - 1) as nat);
    }
}

proof fn lemma_split_parts(clips: Seq<AutomationClip>, next: u32, at: Beat, sums: Seq<SplitSums>, n: nat)
    requires
        n <= clips.len(),
    ensures
        split_parts(clips, next, at, sums, n).0.len() >= clips.len(),
        forall|k: int| n <= k < clips.len() ==> #[trigger] split_parts(clips, next, at, sums, n).0[k] == clips[k],
    decreases n,
{
    if n > 0 {
        lemma_split_parts(clips, next, at, sums, (n - 1) as nat);
    }
}

fn split_track_clips(track: &mut Track, at: Beat, sums: &Vec<SplitSums>)
    requires
        sums@.len() == old(track)@.clips.len(),
    ensures
        final(track)@ == ({
            let (clips, next_clip_id) = split_clips(
                old(track)@.clips,
                old(track)@.next_clip_id,
                at,
                sums@,
                old(track)@.clips.len(),
            );
            TrackModel { clips, next_clip_id, ..old(track)@ }
        }),
{
    let ghost before = track@;
    let n: usize = track.clips.len();
    let mut i: usize = 0;
    while i < n
        invariant
            n == before.clips.len(),
            sums@.len() == n,
            i <= n,
            track@ == ({
                let (clips, next_clip_id) = split_clips(before.clips, before.next_clip_id, at, sums@, i as nat);
                TrackModel { clips, next_clip_id, ..before }
            }),
        decreases n - i,
    {
        proof {
            lemma_split_clips(before.clips, before.next_clip_id, at, sums@, i as nat);
        }
        let c = track.clips[i];
        assert(c == before.clips[i as int]);
        if is_over(c.start_beat, c.end_beat, at) {
            let (id, next) = hand_out(track.next_clip_id);
            let mut left = c;
            left.length_beats = sums[i].left_length;
            left.end_beat = at;
            left.xfade_tail_beats = Beat::zero();
            let mut right = c;
            right.id = id;
            right.start_beat = at;
            right.length_beats = sums[i].right_length;
            right.content_offset_beats = sums[i].right_offset;
            right.xfade_lead_beats = Beat::zero();
            track.clips.set(i, left);
            track.clips.push(right);
            track.next_clip_id = next;
        }
        i += 1;
        assert(track@ =~= ({
            let (clips, next_clip_id) = split_clips(before.clips, before.next_clip_id, at, sums@, i as nat);
            TrackModel { clips, next_clip_id, ..before }
        }));
    }
}

fn split_lane_clips(lane: &mut AutomationLane, at: Beat, sums: &Vec<SplitSums>)
    requires
        sums@.len() == old(lane)@.clips.len(),
    ensures
        final(lane)@ == split_lane(old(lane)@, at, sums@),
{
    let ghost before = lane@;
    let n: usize = lane.clips.len();
    let mut i: usize = 0;
    while i < n
        invariant
            n == before.clips.len(),
            sums@.len() == n,
            i <= n,
            lane@ == ({
                let (clips, next_clip_id) = split_parts(before.clips, before.next_clip_id, at, sums@, i as nat);
                LaneModel { clips, next_clip_id, ..before }
            }),
        decreases n - i,
    {
        proof {
            lemma_split_parts(before.clips, before.next_clip_id, at, sums@, i as nat);
        }
        let c = lane.clips[i];
        assert(c == before.clips[i as int]);
        if is_over(c.start_beat, c.end_beat, at) {
            let (id, next) = hand_out(lane.next_clip_id);
            let mut left = c;
            left.length_beats = sums[i].left_length;
            left.end_beat = at;
            let mut right = c;
            right.id = id;
            right.start_beat = at;
            right.length_beats = sums[i].right_length;
            right.content_offset_beats = sums[i].right_offset;
            lane.clips.set(i, left);
            lane.clips.push(right);
            lane.next_clip_id = next;
        }
        i += 1;
        assert(lane@ =~= ({
            let (clips, next_clip_id) = split_parts(before.clips, before.next_clip_id, at, sums@, i as nat);
            LaneModel { clips, next_clip_id, ..before }
        }));
    }
}

fn split_all_lanes(lanes: &mut Vec<AutomationLane>, at: Beat, sums: &Vec<Vec<SplitSums>>)
    requires
        fits_lanes(sums@, model::models(old(lanes)@)),
    ensures
        model::models(final(lanes)@) == split_lanes(model::models(old(lanes)@), at, sums@),
{
    let ghost before = model::models(lanes@);
    let mut i: usize = 0;
    while i < lanes.len()
        invariant
            lanes@.len() == before.len(),
            fits_lanes(sums@, before),
            i <= lanes@.len(),
            forall|k: int|
                0 <= k < before.len() ==> (#[trigger] lanes@[k])@ == if k < i {
                    split_lane(before[k], at, sums@[k]@)
                } else {
                    before[k]
                },
        decreases lanes@.len() - i,
    {
        let ghost now = lanes@;
        assert(now[i as int]@ == before[i as int]);
        let lane = &mut lanes[i];
        split_lane_clips(lane, at, &sums[i]);
        assert forall|k: int| 0 <= k < before.len() && k != i implies lanes@[k] == #[trigger] now[k] by {}
        i += 1;
    }
    assert(model::models(lanes@) =~= split_lanes(before, at, sums@));
}

// ---------------------------------------------------------------------------
// Moving
// ---------------------------------------------------------------------------

/// A clip elsewhere: where it starts and ends there, if it starts at a place or
/// behind it.
pub open spec fn moved_clip(c: Clip, from: Beat, to: (Beat, Beat)) -> Clip {
    if from.le(c.start_beat) {
        Clip { start_beat: to.0, end_beat: to.1, ..c }
    } else {
        c
    }
}

/// As [`moved_clip`], of a lane.
pub open spec fn moved_part(c: AutomationClip, from: Beat, to: (Beat, Beat)) -> AutomationClip {
    if from.le(c.start_beat) {
        AutomationClip { start_beat: to.0, end_beat: to.1, ..c }
    } else {
        c
    }
}

/// Clips of which those from a place on were moved.
pub open spec fn moved_clips(clips: Seq<Clip>, from: Beat, to: Seq<(Beat, Beat)>) -> Seq<Clip> {
    Seq::new(clips.len(), |i: int| moved_clip(clips[i], from, to[i]))
}

/// As [`moved_clips`], of a lane.
pub open spec fn moved_parts(clips: Seq<AutomationClip>, from: Beat, to: Seq<(Beat, Beat)>) -> Seq<AutomationClip> {
    Seq::new(clips.len(), |i: int| moved_part(clips[i], from, to[i]))
}

/// Lanes of which the clips from a place on were moved.
pub open spec fn moved_lanes(lanes: Seq<LaneModel>, from: Beat, to: Seq<Vec<(Beat, Beat)>>) -> Seq<LaneModel> {
    Seq::new(lanes.len(), |i: int| LaneModel { clips: moved_parts(lanes[i].clips, from, to[i]@), ..lanes[i] })
}

/// A track of which the clips from a place on were moved.
pub open spec fn moved_track(
    t: TrackModel,
    from: Beat,
    to: Seq<(Beat, Beat)>,
    lanes: Seq<Vec<(Beat, Beat)>>,
) -> TrackModel {
    TrackModel {
        clips: moved_clips(t.clips, from, to),
        automation_lanes: moved_lanes(t.automation_lanes, from, lanes),
        ..t
    }
}

/// A song of which the clips from a place on were moved.
pub open spec fn moved_song(song: SongModel, from: Beat, to: SongSums<(Beat, Beat)>) -> SongModel {
    SongModel {
        tracks: Seq::new(
            song.tracks.len(),
            |i: int| moved_track(song.tracks[i], from, to.clips@[i]@, to.lanes@[i]@),
        ),
        song_lanes: moved_lanes(song.song_lanes, from, to.song_lanes@),
        ..song
    }
}

fn move_clips(clips: &mut Vec<Clip>, from: Beat, to: &Vec<(Beat, Beat)>)
    requires
        to@.len() == old(clips)@.len(),
    ensures
        final(clips)@ == moved_clips(old(clips)@, from, to@),
{
    let ghost before = clips@;
    let mut i: usize = 0;
    while i < clips.len()
        invariant
            clips@.len() == before.len(),
            to@.len() == before.len(),
            i <= clips@.len(),
            forall|k: int|
                0 <= k < before.len() ==> #[trigger] clips@[k] == if k < i {
                    moved_clip(before[k], from, to@[k])
                } else {
                    before[k]
                },
        decreases clips@.len() - i,
    {
        let mut c = clips[i];
        if from.le(c.start_beat) {
            c.start_beat = to[i].0;
            c.end_beat = to[i].1;
            clips.set(i, c);
        }
        i += 1;
    }
    assert(clips@ =~= moved_clips(before, from, to@));
}

fn move_parts(clips: &mut Vec<AutomationClip>, from: Beat, to: &Vec<(Beat, Beat)>)
    requires
        to@.len() == old(clips)@.len(),
    ensures
        final(clips)@ == moved_parts(old(clips)@, from, to@),
{
    let ghost before = clips@;
    let mut i: usize = 0;
    while i < clips.len()
        invariant
            clips@.len() == before.len(),
            to@.len() == before.len(),
            i <= clips@.len(),
            forall|k: int|
                0 <= k < before.len() ==> #[trigger] clips@[k] == if k < i {
                    moved_part(before[k], from, to@[k])
                } else {
                    before[k]
                },
        decreases clips@.len() - i,
    {
        let mut c = clips[i];
        if from.le(c.start_beat) {
            c.start_beat = to[i].0;
            c.end_beat = to[i].1;
            clips.set(i, c);
        }
        i += 1;
    }
    assert(clips@ =~= moved_parts(before, from, to@));
}

fn move_lanes(lanes: &mut Vec<AutomationLane>, from: Beat, to: &Vec<Vec<(Beat, Beat)>>)
    requires
        fits_lanes(to@, model::models(old(lanes)@)),
    ensures
        model::models(final(lanes)@) == moved_lanes(model::models(old(lanes)@), from, to@),
{
    let ghost before = model::models(lanes@);
    let ghost after = moved_lanes(before, from, to@);
    let mut i: usize = 0;
    while i < lanes.len()
        invariant
            lanes@.len() == before.len(),
            fits_lanes(to@, before),
            after == moved_lanes(before, from, to@),
            i <= lanes@.len(),
            forall|k: int|
                0 <= k < before.len() ==> (#[trigger] lanes@[k])@ == if k < i {
                    after[k]
                } else {
                    before[k]
                },
        decreases lanes@.len() - i,
    {
        let ghost now = lanes@;
        assert(now[i as int]@ == before[i as int]);
        let lane = &mut lanes[i];
        move_parts(&mut lane.clips, from, &to[i]);
        proof {
            assert(lanes@[i as int]@ =~= after[i as int]);
            assert forall|k: int| 0 <= k < before.len() && k != i implies lanes@[k] == #[trigger] now[k] by {}
        }
        i += 1;
    }
    assert(model::models(lanes@) =~= after);
}

/// The changes of key, of which those from a place on were moved. `to` is where
/// they are then.
pub fn move_changes(changes: &Vec<ScaleChange>, from: Beat, to: &Vec<Beat>) -> (r: Vec<ScaleChange>)
    requires
        to@.len() == changes@.len(),
    ensures
        r@.len() == changes@.len(),
        forall|i: int|
            0 <= i < r@.len() ==> #[trigger] r@[i] == if from.le(changes@[i].beat) {
                ScaleChange { beat: to@[i], ..changes@[i] }
            } else {
                changes@[i]
            },
{
    let mut r: Vec<ScaleChange> = Vec::new();
    let mut i: usize = 0;
    while i < changes.len()
        invariant
            to@.len() == changes@.len(),
            i <= changes@.len(),
            r@.len() == i,
            forall|k: int|
                0 <= k < i ==> #[trigger] r@[k] == if from.le(changes@[k].beat) {
                    ScaleChange { beat: to@[k], ..changes@[k] }
                } else {
                    changes@[k]
                },
        decreases changes@.len() - i,
    {
        let mut c = changes[i];
        if from.le(c.beat) {
            c.beat = to[i];
        }
        r.push(c);
        i += 1;
    }
    r
}

impl Song {
    /// Splits every clip that goes over a place, on tracks and on lanes.
    pub fn split_clips_at(&mut self, at: Beat, sums: &SongSums<SplitSums>)
        requires
            sums.fits(old(self)@),
        ensures
            final(self)@ == split_song(old(self)@, at, *sums),
    {
        let ghost before = self@;
        let ghost after = split_song(before, at, *sums);
        let mut i: usize = 0;
        while i < self.tracks.len()
            invariant
                sums.fits(before),
                after == split_song(before, at, *sums),
                self.tracks@.len() == before.tracks.len(),
                i <= self.tracks@.len(),
                forall|k: int|
                    0 <= k < before.tracks.len() ==> (#[trigger] self.tracks@[k])@ == if k < i {
                        after.tracks[k]
                    } else {
                        before.tracks[k]
                    },
                self@ == (SongModel { tracks: self@.tracks, ..before }),
            decreases self.tracks@.len() - i,
        {
            let ghost now = self.tracks@;
            assert(now[i as int]@ == before.tracks[i as int]);
            let track = &mut self.tracks[i];
            split_track_clips(track, at, &sums.clips[i]);
            split_all_lanes(&mut track.automation_lanes, at, &sums.lanes[i]);
            proof {
                assert(self.tracks@[i as int]@ =~= after.tracks[i as int]);
                assert forall|k: int| 0 <= k < before.tracks.len() && k != i implies self.tracks@[k]
                    == #[trigger] now[k] by {}
                assert(self@ =~= (SongModel { tracks: self@.tracks, ..before }));
            }
            i += 1;
        }
        split_all_lanes(&mut self.song_lanes, at, &sums.song_lanes);
        assert(self@.tracks =~= after.tracks);
        assert(self@ =~= after);
    }

    /// Moves the clips that start at a place or behind it, on tracks and on lanes.
    /// `to` is where they start and end then.
    pub fn move_clips_from(&mut self, from: Beat, to: &SongSums<(Beat, Beat)>)
        requires
            to.fits(old(self)@),
        ensures
            final(self)@ == moved_song(old(self)@, from, *to),
    {
        let ghost before = self@;
        let ghost after = moved_song(before, from, *to);
        let mut i: usize = 0;
        while i < self.tracks.len()
            invariant
                to.fits(before),
                after == moved_song(before, from, *to),
                self.tracks@.len() == before.tracks.len(),
                i <= self.tracks@.len(),
                forall|k: int|
                    0 <= k < before.tracks.len() ==> (#[trigger] self.tracks@[k])@ == if k < i {
                        after.tracks[k]
                    } else {
                        before.tracks[k]
                    },
                self@ == (SongModel { tracks: self@.tracks, ..before }),
            decreases self.tracks@.len() - i,
        {
            let ghost now = self.tracks@;
            assert(now[i as int]@ == before.tracks[i as int]);
            let track = &mut self.tracks[i];
            move_clips(&mut track.clips, from, &to.clips[i]);
            move_lanes(&mut track.automation_lanes, from, &to.lanes[i]);
            proof {
                assert(self.tracks@[i as int]@ =~= after.tracks[i as int]);
                assert forall|k: int| 0 <= k < before.tracks.len() && k != i implies self.tracks@[k]
                    == #[trigger] now[k] by {}
                assert(self@ =~= (SongModel { tracks: self@.tracks, ..before }));
            }
            i += 1;
        }
        move_lanes(&mut self.song_lanes, from, &to.song_lanes);
        assert(self@.tracks =~= after.tracks);
        assert(self@ =~= after);
    }
}

// ---------------------------------------------------------------------------
// Laws
// ---------------------------------------------------------------------------

/// After a split no clip of a track goes over the place.
pub proof fn law_nothing_goes_over_a_split(
    clips: Seq<Clip>,
    next: u32,
    at: Beat,
    sums: Seq<SplitSums>,
    k: int,
)
    requires
        0 <= k < split_clips(clips, next, at, sums, clips.len()).0.len(),
    ensures
        !goes_over(
            split_clips(clips, next, at, sums, clips.len()).0[k].start_beat,
            split_clips(clips, next, at, sums, clips.len()).0[k].end_beat,
            at,
        ),
{
    lemma_split_upto(clips, next, at, sums, clips.len(), k);
}

/// After a split no clip of a lane goes over the place.
pub proof fn law_no_part_goes_over_a_split(
    clips: Seq<AutomationClip>,
    next: u32,
    at: Beat,
    sums: Seq<SplitSums>,
    k: int,
)
    requires
        0 <= k < split_parts(clips, next, at, sums, clips.len()).0.len(),
    ensures
        !goes_over(
            split_parts(clips, next, at, sums, clips.len()).0[k].start_beat,
            split_parts(clips, next, at, sums, clips.len()).0[k].end_beat,
            at,
        ),
{
    lemma_split_parts_upto(clips, next, at, sums, clips.len(), k);
}

proof fn lemma_split_parts_upto(clips: Seq<AutomationClip>, next: u32, at: Beat, sums: Seq<SplitSums>, n: nat, k: int)
    requires
        n <= clips.len(),
        0 <= k < split_parts(clips, next, at, sums, n).0.len(),
        k < n || k >= clips.len(),
    ensures
        !goes_over(
            split_parts(clips, next, at, sums, n).0[k].start_beat,
            split_parts(clips, next, at, sums, n).0[k].end_beat,
            at,
        ),
    decreases n,
{
    if n > 0 {
        lemma_split_parts(clips, next, at, sums, (n - 1) as nat);
        let front = split_parts(clips, next, at, sums, (n - 1) as nat).0;
        if k != n - 1 && k < front.len() {
            lemma_split_parts_upto(clips, next, at, sums, (n - 1) as nat, k);
        }
    }
}

proof fn lemma_split_upto(clips: Seq<Clip>, next: u32, at: Beat, sums: Seq<SplitSums>, n: nat, k: int)
    requires
        n <= clips.len(),
        0 <= k < split_clips(clips, next, at, sums, n).0.len(),
        k < n || k >= clips.len(),
    ensures
        !goes_over(
            split_clips(clips, next, at, sums, n).0[k].start_beat,
            split_clips(clips, next, at, sums, n).0[k].end_beat,
            at,
        ),
    decreases n,
{
    if n > 0 {
        lemma_split_clips(clips, next, at, sums, (n - 1) as nat);
        let front = split_clips(clips, next, at, sums, (n - 1) as nat).0;
        if k != n - 1 && k < front.len() {
            lemma_split_upto(clips, next, at, sums, (n - 1) as nat, k);
        }
    }
}

} // verus!
