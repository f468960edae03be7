//! What holds when time is taken out, put in, or copied.

use super::automation::{AutomationClip, LaneModel};
use super::clip::Clip;
use super::song::SongModel;
use super::time_paste;
use super::time_shift;
use super::time_shift::{SongSums, SplitSums};
use super::track::TrackModel;
use crate::beat::Beat;
use crate::scale::ScaleChange;
use vstd::prelude::*;

verus! {

// ---------------------------------------------------------------------------
// What is left of a list
// ---------------------------------------------------------------------------

/// Whether places are in order and lie among `n`.
pub open spec fn are_ordered(at: Seq<int>, n: nat) -> bool {
    &&& forall|k: int| 0 <= k < at.len() ==> 0 <= #[trigger] at[k] < n
    &&& forall|k: int, l: int| 0 <= k < l < at.len() ==> #[trigger] at[k] < #[trigger] at[l]
}

/// Whether one list is what is left of another when what `goes` is taken out: what stays
/// stays in order, nothing that goes is left, and nothing that stays is lost. `at` is
/// where in the other list everything was.
pub open spec fn is_left<A>(now: Seq<A>, was: Seq<A>, goes: spec_fn(A) -> bool, at: Seq<int>) -> bool {
    &&& at.len() == now.len()
    &&& are_ordered(at, was.len())
    &&& forall|k: int| 0 <= k < now.len() ==> now[k] == was[#[trigger] at[k]]
    &&& forall|i: int| 0 <= i < was.len() ==> (#[trigger] at.contains(i) <==> !goes(was[i]))
}

/// Whether one list is what is left of another, see [`is_left`].
pub open spec fn is_what_is_left<A>(now: Seq<A>, was: Seq<A>, goes: spec_fn(A) -> bool) -> bool {
    exists|at: Seq<int>| #[trigger] is_left(now, was, goes, at)
}

pub(crate) proof fn lemma_filtered<A>(s: Seq<A>, p: spec_fn(A) -> bool, goes: spec_fn(A) -> bool)
    requires
        forall|x: A| #[trigger] p(x) == !goes(x),
    ensures
        is_what_is_left(s.filter(p), s, goes),
    decreases s.len(),
{
    reveal(Seq::filter);
    if s.len() == 0 {
        assert(is_left(s.filter(p), s, goes, Seq::<int>::empty()));
    } else {
        let front = s.drop_last();
        lemma_filtered(front, p, goes);
        let before = choose|at: Seq<int>| #[trigger] is_left(front.filter(p), front, goes, at);
        let n = s.len() - 1;
        let at = if p(s.last()) {
            before.push(n)
        } else {
            before
        };
        assert forall|i: int| 0 <= i < s.len() implies (#[trigger] at.contains(i) <==> !goes(s[i])) by {
            if i < n {
                assert(before.contains(i) <==> !goes(front[i]));
                if before.contains(i) {
                    let k = choose|k: int| 0 <= k < before.len() && before[k] == i;
                    assert(at[k] == i);
                }
                if at.contains(i) {
                    let k = choose|k: int| 0 <= k < at.len() && at[k] == i;
                    assert(before[k] == i);
                }
            } else {
                if p(s.last()) {
                    assert(at[before.len() as int] == n);
                } else if at.contains(i) {
                    let k = choose|k: int| 0 <= k < at.len() && at[k] == i;
                    assert(before[k] < front.len());
                }
            }
        }
        assert forall|k: int| 0 <= k < s.filter(p).len() implies s.filter(p)[k] == s[#[trigger] at[k]] by {
            if k < before.len() {
                assert(before[k] < front.len());
            }
        }
        assert forall|k: int| 0 <= k < at.len() implies 0 <= #[trigger] at[k] < s.len() by {
            if k < before.len() {
                assert(before[k] < front.len());
            }
        }
        assert forall|k: int, l: int| 0 <= k < l < at.len() implies #[trigger] at[k] < #[trigger] at[l] by {
            assert(before[k] < front.len());
            if l < before.len() {
                assert(before[k] < before[l]);
            }
        }
        assert(is_left(s.filter(p), s, goes, at));
    }
}

/// Whether a position is in a range: not before its start, and before its end.
pub open spec fn is_within(x: Beat, a: Beat, b: Beat) -> bool {
    a.le(x) && x.lt(b)
}

/// Whether lanes are what is left of others when the clips that start in a range are
/// taken out.
pub open spec fn lanes_are_left(now: Seq<LaneModel>, was: Seq<LaneModel>, a: Beat, b: Beat) -> bool {
    &&& now.len() == was.len()
    &&& forall|l: int|
        0 <= l < was.len() ==> {
            &&& (#[trigger] now[l]) == (LaneModel { clips: now[l].clips, ..was[l] })
            &&& is_what_is_left(now[l].clips, was[l].clips, |c: AutomationClip| is_within(c.start_beat, a, b))
        }
}

proof fn lemma_lanes_left(lanes: Seq<LaneModel>, a: Beat, b: Beat)
    ensures
        lanes_are_left(time_paste::cleared_lanes(lanes, a, b), lanes, a, b),
{
    let now = time_paste::cleared_lanes(lanes, a, b);
    assert forall|l: int| 0 <= l < lanes.len() implies {
        &&& (#[trigger] now[l]) == (LaneModel { clips: now[l].clips, ..lanes[l] })
        &&& is_what_is_left(now[l].clips, lanes[l].clips, |c: AutomationClip| is_within(c.start_beat, a, b))
    } by {
        lemma_filtered(
            lanes[l].clips,
            |c: AutomationClip| !time_paste::lies_in(c.start_beat, a, b),
            |c: AutomationClip| is_within(c.start_beat, a, b),
        );
    }
}

/// Taking a range out takes out every clip that starts in it, on tracks, on their lanes
/// and on the lanes of the song, and nothing else.
pub proof fn law_clearing_takes_out_what_starts_in_the_range(song: SongModel, a: Beat, b: Beat)
    ensures
        ({
            let now = time_paste::cleared(song, a, b);
            &&& now == (SongModel { tracks: now.tracks, song_lanes: now.song_lanes, ..song })
            &&& now.tracks.len() == song.tracks.len()
            &&& forall|t: int|
                0 <= t < song.tracks.len() ==> {
                    let track = #[trigger] now.tracks[t];
                    let was = song.tracks[t];
                    &&& track == (TrackModel { clips: track.clips, automation_lanes: track.automation_lanes, ..was })
                    &&& is_what_is_left(track.clips, was.clips, |c: Clip| is_within(c.start_beat, a, b))
                    &&& lanes_are_left(track.automation_lanes, was.automation_lanes, a, b)
                }
            &&& lanes_are_left(now.song_lanes, song.song_lanes, a, b)
        }),
{
    let now = time_paste::cleared(song, a, b);
    lemma_lanes_left(song.song_lanes, a, b);
    assert forall|t: int| 0 <= t < song.tracks.len() implies {
        let track = #[trigger] now.tracks[t];
        let was = song.tracks[t];
        &&& track == (TrackModel { clips: track.clips, automation_lanes: track.automation_lanes, ..was })
        &&& is_what_is_left(track.clips, was.clips, |c: Clip| is_within(c.start_beat, a, b))
        &&& lanes_are_left(track.automation_lanes, was.automation_lanes, a, b)
    } by {
        let was = song.tracks[t];
        assert(now.tracks[t] == time_paste::cleared_track(was, a, b));
        lemma_filtered(
            was.clips,
            |c: Clip| !time_paste::lies_in(c.start_beat, a, b),
            |c: Clip| is_within(c.start_beat, a, b),
        );
        lemma_lanes_left(was.automation_lanes, a, b);
    }
}

/// Of the changes of key those in the range are taken out, and no others.
pub proof fn law_changes_in_the_range_are_taken_out(changes: Seq<ScaleChange>, a: Beat, b: Beat)
    ensures
        is_what_is_left(
            time_paste::changes_outside(changes, a, b),
            changes,
            |c: ScaleChange| is_within(c.beat, a, b),
        ),
{
    lemma_filtered(
        changes,
        |c: ScaleChange| !time_paste::lies_in(c.beat, a, b),
        |c: ScaleChange| is_within(c.beat, a, b),
    );
}

// ---------------------------------------------------------------------------
// Splitting
// ---------------------------------------------------------------------------

/// Whether a clip is split at a place: it starts before and ends behind it.
pub open spec fn spans(start: Beat, end: Beat, at: Beat) -> bool {
    start.lt(at) && at.lt(end)
}

/// Whether two clips are what one was split into at a place. Together they show what it
/// showed: the one from its start up to the place, the other from the place on to its
/// end. What was crossfaded at the new edges is not any more.
pub open spec fn are_halves(left: Clip, right: Clip, c: Clip, at: Beat, sums: SplitSums) -> bool {
    &&& (left.start_beat, left.end_beat) == (c.start_beat, at)
    &&& (right.start_beat, right.end_beat) == (at, c.end_beat)
    &&& (left.length_beats, right.length_beats) == (sums.left_length, sums.right_length)
    &&& (left.content_offset_beats, right.content_offset_beats) == (c.content_offset_beats, sums.right_offset)
    &&& (left.content_id, right.content_id) == (c.content_id, c.content_id)
    &&& (left.muted, right.muted) == (c.muted, c.muted)
    &&& (left.xfade_lead_beats, left.xfade_tail_beats.rank()) == (c.xfade_lead_beats, 0int)
    &&& (right.xfade_lead_beats.rank(), right.xfade_tail_beats) == (0int, c.xfade_tail_beats)
    &&& left.id == c.id
}

/// As [`are_halves`], of a lane.
pub open spec fn are_part_halves(
    left: AutomationClip,
    right: AutomationClip,
    c: AutomationClip,
    at: Beat,
    sums: SplitSums,
) -> bool {
    &&& (left.start_beat, left.end_beat) == (c.start_beat, at)
    &&& (right.start_beat, right.end_beat) == (at, c.end_beat)
    &&& (left.length_beats, right.length_beats) == (sums.left_length, sums.right_length)
    &&& (left.content_offset_beats, right.content_offset_beats) == (c.content_offset_beats, sums.right_offset)
    &&& (left.content_id, right.content_id) == (c.content_id, c.content_id)
    &&& left.id == c.id
}

/// Whether the clips of a track were split at a place. `halves` are the places of the
/// clips that were; what comes behind them lies behind the others, in order.
pub open spec fn are_split(
    now: Seq<Clip>,
    was: Seq<Clip>,
    at: Beat,
    sums: Seq<SplitSums>,
    halves: Seq<int>,
    n: int,
) -> bool {
    &&& now.len() == was.len() + halves.len()
    &&& are_ordered(halves, n as nat)
    &&& forall|i: int|
        0 <= i < n ==> (#[trigger] halves.contains(i) <==> spans(was[i].start_beat, was[i].end_beat, at))
    &&& forall|k: int|
        0 <= k < halves.len() ==> are_halves(
            now[#[trigger] halves[k]],
            now[was.len() + k],
            was[halves[k]],
            at,
            sums[halves[k]],
        )
    &&& forall|i: int| 0 <= i < was.len() && !halves.contains(i) ==> #[trigger] now[i] == was[i]
}

/// As [`are_split`], of a lane.
pub open spec fn are_parts_split(
    now: Seq<AutomationClip>,
    was: Seq<AutomationClip>,
    at: Beat,
    sums: Seq<SplitSums>,
    halves: Seq<int>,
    n: int,
) -> bool {
    &&& now.len() == was.len() + halves.len()
    &&& are_ordered(halves, n as nat)
    &&& forall|i: int|
        0 <= i < n ==> (#[trigger] halves.contains(i) <==> spans(was[i].start_beat, was[i].end_beat, at))
    &&& forall|k: int|
        0 <= k < halves.len() ==> are_part_halves(
            now[#[trigger] halves[k]],
            now[was.len() + k],
            was[halves[k]],
            at,
            sums[halves[k]],
        )
    &&& forall|i: int| 0 <= i < was.len() && !halves.contains(i) ==> #[trigger] now[i] == was[i]
}

pub(crate) proof fn lemma_grown(before: Seq<int>, n: int)
    requires
        are_ordered(before, n as nat),
        0 <= n,
    ensures
        are_ordered(before.push(n), (n + 1) as nat),
        are_ordered(before, (n + 1) as nat),
        !before.contains(n),
        forall|i: int| #[trigger] before.push(n).contains(i) <==> before.contains(i) || i == n,
{
    let now = before.push(n);
    if before.contains(n) {
        let k = choose|k: int| 0 <= k < before.len() && before[k] == n;
        assert(before[k] < n);
    }
    assert forall|k: int| 0 <= k < now.len() implies 0 <= #[trigger] now[k] < n + 1 by {
        if k < before.len() {
            assert(before[k] < n);
        }
    }
    assert forall|k: int| 0 <= k < before.len() implies 0 <= #[trigger] before[k] < n + 1 by {
        assert(now[k] == before[k]);
    }
    assert forall|k: int, l: int| 0 <= k < l < now.len() implies #[trigger] now[k] < #[trigger] now[l] by {
        assert(before[k] < n);
        if l < before.len() {
            assert(before[k] < before[l]);
        }
    }
    assert forall|i: int| #[trigger] now.contains(i) <==> before.contains(i) || i == n by {
        if before.contains(i) {
            let k = choose|k: int| 0 <= k < before.len() && before[k] == i;
            assert(now[k] == i);
        }
        if i == n {
            assert(now[before.len() as int] == n);
        }
        if now.contains(i) && i != n {
            let k = choose|k: int| 0 <= k < now.len() && now[k] == i;
            assert(before[k] == i);
        }
    }
}

proof fn lemma_are_split(clips: Seq<Clip>, next: u32, at: Beat, sums: Seq<SplitSums>, n: nat) -> (halves: Seq<int>)
    requires
        n <= clips.len(),
    ensures
        are_split(time_shift::split_clips(clips, next, at, sums, n).0, clips, at, sums, halves, n as int),
    decreases n,
{
    if n == 0 {
        let none = Seq::<int>::empty();
        none
    } else {
        let m = n - 1;
        let before = lemma_are_split(clips, next, at, sums, m as nat);
        let front = time_shift::split_clips(clips, next, at, sums, m as nat).0;
        let now = time_shift::split_clips(clips, next, at, sums, n).0;
        lemma_grown(before, m);
        let c = clips[m];
        assert(front[m] == c);
        let halves = if spans(c.start_beat, c.end_beat, at) {
            before.push(m)
        } else {
            before
        };
        assert forall|i: int| 0 <= i < n implies (#[trigger] halves.contains(i) <==> spans(
            clips[i].start_beat,
            clips[i].end_beat,
            at,
        )) by {
            if i < m {
                assert(before.contains(i) <==> spans(clips[i].start_beat, clips[i].end_beat, at));
            }
            assert(before.push(m).contains(i) <==> before.contains(i) || i == m);
        }
        assert forall|k: int| 0 <= k < halves.len() implies are_halves(
            now[#[trigger] halves[k]],
            now[clips.len() + k],
            clips[halves[k]],
            at,
            sums[halves[k]],
        ) by {
            if k < before.len() {
                assert(before[k] < m);
                assert(now[before[k]] == front[before[k]]);
                assert(now[clips.len() + k] == front[clips.len() + k]);
            }
        }
        assert forall|i: int| 0 <= i < clips.len() && !halves.contains(i) implies #[trigger] now[i] == clips[i] by {
            assert(before.push(m).contains(i) <==> before.contains(i) || i == m);
            assert(front[i] == clips[i]);
        }
        halves
    }
}

proof fn lemma_are_parts_split(clips: Seq<AutomationClip>, next: u32, at: Beat, sums: Seq<SplitSums>, n: nat) -> (halves:
    Seq<int>)
    requires
        n <= clips.len(),
    ensures
        are_parts_split(time_shift::split_parts(clips, next, at, sums, n).0, clips, at, sums, halves, n as int),
    decreases n,
{
    if n == 0 {
        let none = Seq::<int>::empty();
        none
    } else {
        let m = n - 1;
        let before = lemma_are_parts_split(clips, next, at, sums, m as nat);
        let front = time_shift::split_parts(clips, next, at, sums, m as nat).0;
        let now = time_shift::split_parts(clips, next, at, sums, n).0;
        lemma_grown(before, m);
        let c = clips[m];
        assert(front[m] == c);
        let halves = if spans(c.start_beat, c.end_beat, at) {
            before.push(m)
        } else {
            before
        };
        assert forall|i: int| 0 <= i < n implies (#[trigger] halves.contains(i) <==> spans(
            clips[i].start_beat,
            clips[i].end_beat,
            at,
        )) by {
            if i < m {
                assert(before.contains(i) <==> spans(clips[i].start_beat, clips[i].end_beat, at));
            }
            assert(before.push(m).contains(i) <==> before.contains(i) || i == m);
        }
        assert forall|k: int| 0 <= k < halves.len() implies are_part_halves(
            now[#[trigger] halves[k]],
            now[clips.len() + k],
            clips[halves[k]],
            at,
            sums[halves[k]],
        ) by {
            if k < before.len() {
                assert(before[k] < m);
                assert(now[before[k]] == front[before[k]]);
                assert(now[clips.len() + k] == front[clips.len() + k]);
            }
        }
        assert forall|i: int| 0 <= i < clips.len() && !halves.contains(i) implies #[trigger] now[i] == clips[i] by {
            assert(before.push(m).contains(i) <==> before.contains(i) || i == m);
            assert(front[i] == clips[i]);
        }
        halves
    }
}

/// Whether the clips of lanes were split at a place.
pub open spec fn lanes_are_split(now: Seq<LaneModel>, was: Seq<LaneModel>, at: Beat, sums: Seq<Vec<SplitSums>>) -> bool {
    &&& now.len() == was.len()
    &&& forall|l: int|
        0 <= l < was.len() ==> {
            let lane = #[trigger] now[l];
            &&& lane == (LaneModel { clips: lane.clips, next_clip_id: lane.next_clip_id, ..was[l] })
            &&& exists|halves: Seq<int>|
                are_parts_split(lane.clips, was[l].clips, at, sums[l]@, halves, was[l].clips.len() as int)
        }
}

proof fn lemma_lanes_split(lanes: Seq<LaneModel>, at: Beat, sums: Seq<Vec<SplitSums>>)
    ensures
        lanes_are_split(time_shift::split_lanes(lanes, at, sums), lanes, at, sums),
{
    let now = time_shift::split_lanes(lanes, at, sums);
    assert forall|l: int| 0 <= l < lanes.len() implies {
        let lane = #[trigger] now[l];
        &&& lane == (LaneModel { clips: lane.clips, next_clip_id: lane.next_clip_id, ..lanes[l] })
        &&& exists|halves: Seq<int>|
            are_parts_split(lane.clips, lanes[l].clips, at, sums[l]@, halves, lanes[l].clips.len() as int)
    } by {
        let was = lanes[l];
        let halves = lemma_are_parts_split(was.clips, was.next_clip_id, at, sums[l]@, was.clips.len());
        assert(are_parts_split(now[l].clips, was.clips, at, sums[l]@, halves, was.clips.len() as int));
    }
}

/// Splitting a song at a place splits every clip that goes over it, on tracks, on their
/// lanes and on the lanes of the song, into two that together show what it showed, and
/// changes nothing else.
pub proof fn law_splitting_loses_nothing(song: SongModel, at: Beat, sums: SongSums<SplitSums>)
    ensures
        ({
            let now = time_shift::split_song(song, at, sums);
            &&& now == (SongModel { tracks: now.tracks, song_lanes: now.song_lanes, ..song })
            &&& now.tracks.len() == song.tracks.len()
            &&& forall|t: int|
                0 <= t < song.tracks.len() ==> {
                    let track = #[trigger] now.tracks[t];
                    let was = song.tracks[t];
                    &&& track == (TrackModel {
                        clips: track.clips,
                        next_clip_id: track.next_clip_id,
                        automation_lanes: track.automation_lanes,
                        ..was
                    })
                    &&& exists|halves: Seq<int>|
                        are_split(track.clips, was.clips, at, sums.clips@[t]@, halves, was.clips.len() as int)
                    &&& lanes_are_split(track.automation_lanes, was.automation_lanes, at, sums.lanes@[t]@)
                }
            &&& lanes_are_split(now.song_lanes, song.song_lanes, at, sums.song_lanes@)
        }),
{
    let now = time_shift::split_song(song, at, sums);
    lemma_lanes_split(song.song_lanes, at, sums.song_lanes@);
    assert forall|t: int| 0 <= t < song.tracks.len() implies {
        let track = #[trigger] now.tracks[t];
        let was = song.tracks[t];
        &&& track == (TrackModel {
            clips: track.clips,
            next_clip_id: track.next_clip_id,
            automation_lanes: track.automation_lanes,
            ..was
        })
        &&& exists|halves: Seq<int>|
            are_split(track.clips, was.clips, at, sums.clips@[t]@, halves, was.clips.len() as int)
        &&& lanes_are_split(track.automation_lanes, was.automation_lanes, at, sums.lanes@[t]@)
    } by {
        let was = song.tracks[t];
        assert(now.tracks[t] == time_shift::split_track(was, at, sums.clips@[t]@, sums.lanes@[t]@));
        let halves = lemma_are_split(was.clips, was.next_clip_id, at, sums.clips@[t]@, was.clips.len());
        assert(are_split(now.tracks[t].clips, was.clips, at, sums.clips@[t]@, halves, was.clips.len() as int));
        lemma_lanes_split(was.automation_lanes, at, sums.lanes@[t]@);
    }
}

/// The clips that splitting makes have ids that no clip of the track had, each its own,
/// as long as the clips that are there have ids below the next one and there are ids
/// left.
pub proof fn law_splitting_hands_out_new_ids(clips: Seq<Clip>, next: u32, at: Beat, sums: Seq<SplitSums>)
    requires
        next > 0,
        forall|i: int| 0 <= i < clips.len() ==> (#[trigger] clips[i]).id < next,
        forall|i: int, j: int| 0 <= i < j < clips.len() ==> (#[trigger] clips[i]).id != (#[trigger] clips[j]).id,
        next + clips.len() <= u32::MAX,
    ensures
        ({
            let (now, then_next) = time_shift::split_clips(clips, next, at, sums, clips.len());
            &&& forall|i: int, j: int| 0 <= i < j < now.len() ==> (#[trigger] now[i]).id != (#[trigger] now[j]).id
            &&& forall|i: int| 0 <= i < now.len() ==> (#[trigger] now[i]).id < then_next
        }),
{
    lemma_new_ids(clips, next, at, sums, clips.len());
}

proof fn lemma_new_ids(clips: Seq<Clip>, next: u32, at: Beat, sums: Seq<SplitSums>, n: nat)
    requires
        next > 0,
        n <= clips.len(),
        forall|i: int| 0 <= i < clips.len() ==> (#[trigger] clips[i]).id < next,
        forall|i: int, j: int| 0 <= i < j < clips.len() ==> (#[trigger] clips[i]).id != (#[trigger] clips[j]).id,
        next + clips.len() <= u32::MAX,
    ensures
        ({
            let (now, then_next) = time_shift::split_clips(clips, next, at, sums, n);
            &&& next <= then_next <= next + n
            &&& now.len() >= clips.len()
            &&& forall|i: int| 0 <= i < clips.len() ==> (#[trigger] now[i]).id == clips[i].id
            &&& forall|i: int, j: int| 0 <= i < j < now.len() ==> (#[trigger] now[i]).id != (#[trigger] now[j]).id
            &&& forall|i: int| 0 <= i < now.len() ==> (#[trigger] now[i]).id < then_next
        }),
    decreases n,
{
    if n > 0 {
        lemma_new_ids(clips, next, at, sums, (n - 1) as nat);
        let front = time_shift::split_clips(clips, next, at, sums, (n - 1) as nat).0;
        let now = time_shift::split_clips(clips, next, at, sums, n).0;
        assert forall|i: int| 0 <= i < front.len() implies (#[trigger] now[i]).id == front[i].id by {
            assert(front[n - 1].id == clips[n - 1].id);
        }
        assert forall|i: int, j: int| 0 <= i < j < now.len() implies (#[trigger] now[i]).id != (
        #[trigger] now[j]).id by {
            assert(now[i].id == front[i].id);
            if j < front.len() {
                assert(now[j].id == front[j].id);
            }
        }
    }
}

// ---------------------------------------------------------------------------
// Moving
// ---------------------------------------------------------------------------

/// Whether a clip was moved if it starts at a place or behind it, and only then. It keeps
/// everything but where it is.
pub open spec fn is_moved(now: Clip, was: Clip, from: Beat, to: (Beat, Beat)) -> bool {
    if from.le(was.start_beat) {
        now == (Clip { start_beat: to.0, end_beat: to.1, ..was })
    } else {
        now == was
    }
}

/// As [`is_moved`], of a lane.
pub open spec fn is_part_moved(now: AutomationClip, was: AutomationClip, from: Beat, to: (Beat, Beat)) -> bool {
    if from.le(was.start_beat) {
        now == (AutomationClip { start_beat: to.0, end_beat: to.1, ..was })
    } else {
        now == was
    }
}

/// Whether the clips of lanes were moved from a place on.
pub open spec fn lanes_are_moved(
    now: Seq<LaneModel>,
    was: Seq<LaneModel>,
    from: Beat,
    to: Seq<Vec<(Beat, Beat)>>,
) -> bool {
    &&& now.len() == was.len()
    &&& forall|l: int|
        0 <= l < was.len() ==> {
            let lane = #[trigger] now[l];
            &&& lane == (LaneModel { clips: lane.clips, ..was[l] })
            &&& lane.clips.len() == was[l].clips.len()
            &&& forall|k: int|
                0 <= k < was[l].clips.len() ==> is_part_moved(
                    #[trigger] lane.clips[k],
                    was[l].clips[k],
                    from,
                    to[l]@[k],
                )
        }
}

/// Moving a song from a place on moves every clip that starts there or behind, on tracks,
/// on their lanes and on the lanes of the song, and nothing else.
pub proof fn law_moving_moves_what_lies_behind(song: SongModel, from: Beat, to: SongSums<(Beat, Beat)>)
    ensures
        ({
            let now = time_shift::moved_song(song, from, to);
            &&& now == (SongModel { tracks: now.tracks, song_lanes: now.song_lanes, ..song })
            &&& now.tracks.len() == song.tracks.len()
            &&& forall|t: int|
                0 <= t < song.tracks.len() ==> {
                    let track = #[trigger] now.tracks[t];
                    let was = song.tracks[t];
                    &&& track == (TrackModel { clips: track.clips, automation_lanes: track.automation_lanes, ..was })
                    &&& track.clips.len() == was.clips.len()
                    &&& forall|k: int|
                        0 <= k < was.clips.len() ==> is_moved(
                            #[trigger] track.clips[k],
                            was.clips[k],
                            from,
                            to.clips@[t]@[k],
                        )
                    &&& lanes_are_moved(track.automation_lanes, was.automation_lanes, from, to.lanes@[t]@)
                }
            &&& lanes_are_moved(now.song_lanes, song.song_lanes, from, to.song_lanes@)
        }),
{
}

// ---------------------------------------------------------------------------
// Taking time out
// ---------------------------------------------------------------------------

/// What is left of a track when time is taken out of a song. Its clips are split at both
/// ends of the range; those that start in the range are gone, those that lie before it
/// are as they were, and those that lie behind it are moved up. The same holds of lanes.
pub proof fn law_taking_time_out_closes_up(
    song: SongModel,
    a: Beat,
    b: Beat,
    at_start: SongSums<SplitSums>,
    at_end: SongSums<SplitSums>,
    to: SongSums<(Beat, Beat)>,
    t: int,
)
    requires
        0 <= t < song.tracks.len(),
    ensures
        ({
            let split = time_shift::split_song(time_shift::split_song(song, a, at_start), b, at_end);
            let now = time_shift::moved_song(time_paste::without_range(song, a, b, at_start, at_end), b, to);
            let was = split.tracks[t];
            let track = now.tracks[t];
            &&& exists|at: Seq<int>| #[trigger]
                closes_up(track.clips, was.clips, a, b, to.clips@[t]@, at)
            &&& track.automation_lanes.len() == was.automation_lanes.len()
            &&& forall|l: int|
                0 <= l < was.automation_lanes.len() ==> exists|at: Seq<int>|
                    parts_close_up(
                        (#[trigger] track.automation_lanes[l]).clips,
                        was.automation_lanes[l].clips,
                        a,
                        b,
                        to.lanes@[t]@[l]@,
                        at,
                    )
            &&& now.song_lanes.len() == split.song_lanes.len()
            &&& forall|l: int|
                0 <= l < split.song_lanes.len() ==> exists|at: Seq<int>|
                    parts_close_up(
                        (#[trigger] now.song_lanes[l]).clips,
                        split.song_lanes[l].clips,
                        a,
                        b,
                        to.song_lanes@[l]@,
                        at,
                    )
        }),
{
    let split = time_shift::split_song(time_shift::split_song(song, a, at_start), b, at_end);
    let clear = time_paste::without_range(song, a, b, at_start, at_end);
    let now = time_shift::moved_song(clear, b, to);
    law_clearing_takes_out_what_starts_in_the_range(split, a, b);
    law_moving_moves_what_lies_behind(clear, b, to);
    let was = split.tracks[t];
    let left = clear.tracks[t];
    let track = now.tracks[t];
    let goes = |c: Clip| is_within(c.start_beat, a, b);
    assert(is_what_is_left(left.clips, was.clips, goes));
    let at = choose|at: Seq<int>| #[trigger] is_left(left.clips, was.clips, goes, at);
    assert(closes_up(track.clips, was.clips, a, b, to.clips@[t]@, at));
    lemma_lanes_close_up(
        track.automation_lanes,
        left.automation_lanes,
        was.automation_lanes,
        a,
        b,
        to.lanes@[t]@,
    );
    lemma_lanes_close_up(now.song_lanes, clear.song_lanes, split.song_lanes, a, b, to.song_lanes@);
}

/// Whether clips are what is left when time is taken out: those that start in the range
/// are gone, those behind it were moved. `at` is where every one of them was.
pub open spec fn closes_up(
    now: Seq<Clip>,
    was: Seq<Clip>,
    a: Beat,
    b: Beat,
    to: Seq<(Beat, Beat)>,
    at: Seq<int>,
) -> bool {
    &&& at.len() == now.len()
    &&& are_ordered(at, was.len())
    &&& forall|i: int| 0 <= i < was.len() ==> (#[trigger] at.contains(i) <==> !is_within(was[i].start_beat, a, b))
    &&& forall|k: int| 0 <= k < now.len() ==> is_moved(now[k], was[#[trigger] at[k]], b, to[k])
}

/// As [`closes_up`], of a lane.
pub open spec fn parts_close_up(
    now: Seq<AutomationClip>,
    was: Seq<AutomationClip>,
    a: Beat,
    b: Beat,
    to: Seq<(Beat, Beat)>,
    at: Seq<int>,
) -> bool {
    &&& at.len() == now.len()
    &&& are_ordered(at, was.len())
    &&& forall|i: int| 0 <= i < was.len() ==> (#[trigger] at.contains(i) <==> !is_within(was[i].start_beat, a, b))
    &&& forall|k: int| 0 <= k < now.len() ==> is_part_moved(now[k], was[#[trigger] at[k]], b, to[k])
}

proof fn lemma_lanes_close_up(
    now: Seq<LaneModel>,
    left: Seq<LaneModel>,
    was: Seq<LaneModel>,
    a: Beat,
    b: Beat,
    to: Seq<Vec<(Beat, Beat)>>,
)
    requires
        lanes_are_left(left, was, a, b),
        lanes_are_moved(now, left, b, to),
    ensures
        now.len() == was.len(),
        forall|l: int|
            0 <= l < was.len() ==> exists|at: Seq<int>|
                parts_close_up((#[trigger] now[l]).clips, was[l].clips, a, b, to[l]@, at),
{
    assert forall|l: int| 0 <= l < was.len() implies exists|at: Seq<int>|
        parts_close_up((#[trigger] now[l]).clips, was[l].clips, a, b, to[l]@, at) by {
        assert(left[l].clips == left[l].clips);
        let goes = |c: AutomationClip| is_within(c.start_beat, a, b);
        assert(is_what_is_left(left[l].clips, was[l].clips, goes));
        let at = choose|at: Seq<int>| #[trigger] is_left(left[l].clips, was[l].clips, goes, at);
        assert forall|k: int| 0 <= k < now[l].clips.len() implies is_part_moved(
            now[l].clips[k],
            was[l].clips[#[trigger] at[k]],
            b,
            to[l]@[k],
        ) by {
            assert(left[l].clips[k] == was[l].clips[at[k]]);
        }
        assert(parts_close_up(now[l].clips, was[l].clips, a, b, to[l]@, at));
    }
}

// ---------------------------------------------------------------------------
// Sections
// ---------------------------------------------------------------------------

/// What becomes of a section when a range is taken out: one before it stays, one behind it
/// moves up, one inside it has no length any more, and one over it loses the range.
pub proof fn law_sections_close_up(edges: (Beat, Beat), moved: (Beat, Beat), a: Beat, b: Beat)
    requires
        edges.0.is_finite() && edges.1.is_finite() && moved.0.is_finite() && moved.1.is_finite(),
        a.is_finite() && b.is_finite(),
        edges.0.lt(edges.1),
        a.lt(b),
        b.le(edges.0) <==> a.le(moved.0),
        b.le(edges.1) <==> a.le(moved.1),
    ensures
        ({
            let now = time_paste::section_cut(edges, moved, a, b);
            &&& edges.1.le(a) ==> now == edges
            &&& b.lt(edges.0) && a.lt(moved.0) ==> now == moved
            &&& a.le(edges.0) && edges.1.le(b) ==> now.0.rank() == a.rank() && now.1 == a
            &&& edges.0.lt(a) && a.lt(edges.1) && edges.1.le(b) ==> now == (edges.0, a)
            &&& edges.0.lt(a) && b.lt(edges.1) ==> now == (edges.0, moved.1)
            &&& a.le(edges.0) && edges.0.lt(b) && b.lt(edges.1) ==> now.0.rank() == a.rank() && now.1 == moved.1
        }),
{
}

} // verus!
