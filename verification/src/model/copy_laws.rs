//! What holds of what is copied and pasted.

use super::automation::{AutomationClip, LaneModel};
use super::clip::{Clip, ContentModel};
use super::song::SongModel;
use super::time_laws;
use super::time_ops;
use super::time_ops::{ClipSums, CopiedModel, RangeSums, SectionModel, TimeRange, TimeRangeModel};
use super::track::TrackModel;
use super::MASTER_TRACK_ID;
use crate::beat::Beat;
use crate::scale::ScaleChange;
use vstd::prelude::*;

verus! {

/// The beginning of what was copied.
pub open spec fn zero() -> Beat {
    Beat { bits: 0 }
}

// ---------------------------------------------------------------------------
// Clips
// ---------------------------------------------------------------------------

/// Whether something lies in a range with a part of it: it ends, or the range does, some
/// time after the later of their starts. Where it starts or ends nowhere, the range
/// counts.
pub open spec fn shares_time(start: Beat, end: Beat, range: TimeRange, sums: ClipSums) -> bool {
    let first = if start.is_nan() || start.lt(range.start) {
        range.start_tolerance
    } else {
        sums.start_tolerance
    };
    if end.is_nan() || range.end.lt(end) {
        !range.end.le(first)
    } else {
        !end.le(first)
    }
}

/// Whether what was copied starts where it does in the range: at its beginning if it
/// starts before, further into what it shows; and otherwise where it is, with what it
/// shows from the start.
pub open spec fn starts_right(
    start: Beat,
    offset: Beat,
    was_start: Beat,
    was_offset: Beat,
    range: TimeRange,
    sums: ClipSums,
) -> bool {
    if was_start.is_nan() || was_start.lt(range.start) {
        start == zero() && offset == sums.offset_at_edge
    } else {
        start == sums.start_in_range && offset == was_offset
    }
}

/// Whether what was copied ends where it does in the range, at its end at the latest.
pub open spec fn ends_right(
    length: Beat,
    end: Beat,
    was_start: Beat,
    was_end: Beat,
    range: TimeRange,
    sums: ClipSums,
) -> bool {
    let before = was_start.is_nan() || was_start.lt(range.start);
    let behind = was_end.is_nan() || range.end.lt(was_end);
    &&& before && behind ==> length == range.span && end == range.span
    &&& before && !behind ==> length == sums.end_in_range && end == sums.end_in_range
    &&& !before && behind ==> length == sums.length_to_edge && end == sums.end_of_head
    &&& !before && !behind ==> length == sums.length && end == sums.end_of_whole
}

/// Whether a clip is the part of another one that lies in a range. It fades into nothing.
pub open spec fn is_part_of_clip(now: Clip, was: Clip, range: TimeRange, sums: ClipSums) -> bool {
    &&& shares_time(was.start_beat, was.end_beat, range, sums)
    &&& starts_right(now.start_beat, now.content_offset_beats, was.start_beat, was.content_offset_beats, range, sums)
    &&& ends_right(now.length_beats, now.end_beat, was.start_beat, was.end_beat, range, sums)
    &&& now.content_id == was.content_id
    &&& now.muted == was.muted
    &&& now.xfade_lead_beats == zero()
    &&& now.xfade_tail_beats == zero()
}

/// As [`is_part_of_clip`], of a lane.
pub open spec fn is_part_of_automation(
    now: AutomationClip,
    was: AutomationClip,
    range: TimeRange,
    sums: ClipSums,
) -> bool {
    &&& shares_time(was.start_beat, was.end_beat, range, sums)
    &&& starts_right(now.start_beat, now.content_offset_beats, was.start_beat, was.content_offset_beats, range, sums)
    &&& ends_right(now.length_beats, now.end_beat, was.start_beat, was.end_beat, range, sums)
    &&& now.content_id == was.content_id
}

/// Whether parts of clips are those of a track that lie in a range, in order. `at` is
/// where on the track every one of them is.
pub open spec fn are_parts(
    now: Seq<(u32, Clip)>,
    id: u32,
    clips: Seq<Clip>,
    range: TimeRange,
    sums: Seq<ClipSums>,
    at: Seq<int>,
    n: int,
) -> bool {
    &&& at.len() == now.len()
    &&& time_laws::are_ordered(at, n as nat)
    &&& forall|i: int|
        0 <= i < n ==> (#[trigger] at.contains(i) <==> shares_time(
            clips[i].start_beat,
            clips[i].end_beat,
            range,
            sums[i],
        ))
    &&& forall|k: int|
        0 <= k < now.len() ==> (#[trigger] now[k]).0 == id && is_part_of_clip(now[k].1, clips[at[k]], range, sums[at[k]])
}

/// As [`are_parts`], of a lane.
pub open spec fn are_lane_parts(
    now: Seq<(u32, u32, AutomationClip)>,
    id: u32,
    lane: u32,
    clips: Seq<AutomationClip>,
    range: TimeRange,
    sums: Seq<ClipSums>,
    at: Seq<int>,
    n: int,
) -> bool {
    &&& at.len() == now.len()
    &&& time_laws::are_ordered(at, n as nat)
    &&& forall|i: int|
        0 <= i < n ==> (#[trigger] at.contains(i) <==> shares_time(
            clips[i].start_beat,
            clips[i].end_beat,
            range,
            sums[i],
        ))
    &&& forall|k: int|
        0 <= k < now.len() ==> {
            &&& (#[trigger] now[k]).0 == id
            &&& now[k].1 == lane
            &&& is_part_of_automation(now[k].2, clips[at[k]], range, sums[at[k]])
        }
}

proof fn lemma_parts(id: u32, clips: Seq<Clip>, range: TimeRange, sums: Seq<ClipSums>, n: nat) -> (at: Seq<int>)
    requires
        n <= clips.len(),
    ensures
        are_parts(time_ops::parts_of_clips(id, clips, range, sums, n), id, clips, range, sums, at, n as int),
    decreases n,
{
    if n == 0 {
        Seq::empty()
    } else {
        let m = n - 1;
        let before = lemma_parts(id, clips, range, sums, m as nat);
        let front = time_ops::parts_of_clips(id, clips, range, sums, m as nat);
        let now = time_ops::parts_of_clips(id, clips, range, sums, n);
        let c = clips[m];
        assert(shares_time(c.start_beat, c.end_beat, range, sums[m]) == time_ops::clip_part(c, range, sums[m]) is Some);
        time_laws::lemma_grown(before, m);
        let at = if shares_time(clips[m].start_beat, clips[m].end_beat, range, sums[m]) {
            before.push(m)
        } else {
            before
        };
        assert forall|i: int| 0 <= i < n implies (#[trigger] at.contains(i) <==> shares_time(
            clips[i].start_beat,
            clips[i].end_beat,
            range,
            sums[i],
        )) by {
            assert(before.push(m).contains(i) <==> before.contains(i) || i == m);
            if i < m {
                assert(before.contains(i) <==> shares_time(clips[i].start_beat, clips[i].end_beat, range, sums[i]));
            }
        }
        assert forall|k: int| 0 <= k < now.len() implies (#[trigger] now[k]).0 == id && is_part_of_clip(
            now[k].1,
            clips[at[k]],
            range,
            sums[at[k]],
        ) by {
            if k < front.len() {
                assert(now[k] == front[k]);
                assert(before[k] < m);
            }
        }
        at
    }
}

proof fn lemma_lane_parts(
    id: u32,
    lane: u32,
    clips: Seq<AutomationClip>,
    range: TimeRange,
    sums: Seq<ClipSums>,
    n: nat,
) -> (at: Seq<int>)
    requires
        n <= clips.len(),
    ensures
        are_lane_parts(
            time_ops::parts_of_lane(id, lane, clips, range, sums, n),
            id,
            lane,
            clips,
            range,
            sums,
            at,
            n as int,
        ),
    decreases n,
{
    if n == 0 {
        Seq::empty()
    } else {
        let m = n - 1;
        let before = lemma_lane_parts(id, lane, clips, range, sums, m as nat);
        let front = time_ops::parts_of_lane(id, lane, clips, range, sums, m as nat);
        let now = time_ops::parts_of_lane(id, lane, clips, range, sums, n);
        let c = clips[m];
        assert(shares_time(c.start_beat, c.end_beat, range, sums[m]) == time_ops::automation_part(
            c,
            range,
            sums[m],
        ) is Some);
        time_laws::lemma_grown(before, m);
        let at = if shares_time(clips[m].start_beat, clips[m].end_beat, range, sums[m]) {
            before.push(m)
        } else {
            before
        };
        assert forall|i: int| 0 <= i < n implies (#[trigger] at.contains(i) <==> shares_time(
            clips[i].start_beat,
            clips[i].end_beat,
            range,
            sums[i],
        )) by {
            assert(before.push(m).contains(i) <==> before.contains(i) || i == m);
            if i < m {
                assert(before.contains(i) <==> shares_time(clips[i].start_beat, clips[i].end_beat, range, sums[i]));
            }
        }
        assert forall|k: int| 0 <= k < now.len() implies {
            &&& (#[trigger] now[k]).0 == id
            &&& now[k].1 == lane
            &&& is_part_of_automation(now[k].2, clips[at[k]], range, sums[at[k]])
        } by {
            if k < front.len() {
                assert(now[k] == front[k]);
                assert(before[k] < m);
            }
        }
        at
    }
}

/// Whether a list is made of others, one behind the other; `cuts` is where each of them
/// starts.
pub open spec fn are_joined<A>(whole: Seq<A>, cuts: Seq<int>, n: int) -> bool {
    &&& cuts.len() == n + 1
    &&& cuts[0] == 0
    &&& cuts[n] == whole.len()
    &&& forall|i: int, j: int| 0 <= i <= j <= n ==> 0 <= #[trigger] cuts[i] <= #[trigger] cuts[j] <= whole.len()
}

/// Whether a piece of what was copied is what a track holds in the range.
pub open spec fn holds_track(piece: Seq<(u32, Clip)>, t: TrackModel, range: TimeRange, sums: Seq<ClipSums>) -> bool {
    exists|at: Seq<int>| #[trigger] are_parts(piece, t.id, t.clips, range, sums, at, t.clips.len() as int)
}

/// Whether a piece of what was copied is what a lane holds in the range.
pub open spec fn holds_lane(
    piece: Seq<(u32, u32, AutomationClip)>,
    id: u32,
    l: LaneModel,
    range: TimeRange,
    sums: Seq<ClipSums>,
) -> bool {
    exists|at: Seq<int>| #[trigger] are_lane_parts(piece, id, l.id, l.clips, range, sums, at, l.clips.len() as int)
}

/// Whether what was copied holds what every track does in the range, in order.
pub open spec fn holds_tracks(
    whole: Seq<(u32, Clip)>,
    tracks: Seq<TrackModel>,
    range: TimeRange,
    sums: Seq<Vec<ClipSums>>,
    cuts: Seq<int>,
    n: int,
) -> bool {
    &&& are_joined(whole, cuts, n)
    &&& forall|t: int, u: int|
        #![trigger cuts[t], cuts[u]]
        0 <= t < n && u == t + 1 ==> holds_track(whole.subrange(cuts[t], cuts[u]), tracks[t], range, sums[t]@)
}

/// Whether what was copied holds what every lane does in the range, in order.
pub open spec fn holds_lanes(
    whole: Seq<(u32, u32, AutomationClip)>,
    id: u32,
    lanes: Seq<LaneModel>,
    range: TimeRange,
    sums: Seq<Vec<ClipSums>>,
    cuts: Seq<int>,
    n: int,
) -> bool {
    &&& are_joined(whole, cuts, n)
    &&& forall|l: int, m: int|
        #![trigger cuts[l], cuts[m]]
        0 <= l < n && m == l + 1 ==> holds_lane(whole.subrange(cuts[l], cuts[m]), id, lanes[l], range, sums[l]@)
}

/// Whether a piece of what was copied is what the lanes of a track hold in the range.
pub open spec fn holds_lanes_of(
    piece: Seq<(u32, u32, AutomationClip)>,
    id: u32,
    lanes: Seq<LaneModel>,
    range: TimeRange,
    sums: Seq<Vec<ClipSums>>,
) -> bool {
    exists|cuts: Seq<int>| #[trigger] holds_lanes(piece, id, lanes, range, sums, cuts, lanes.len() as int)
}

/// Whether what was copied holds what the lanes of every track do in the range, in order.
pub open spec fn holds_lanes_of_tracks(
    whole: Seq<(u32, u32, AutomationClip)>,
    tracks: Seq<TrackModel>,
    range: TimeRange,
    sums: Seq<Vec<Vec<ClipSums>>>,
    cuts: Seq<int>,
    n: int,
) -> bool {
    &&& are_joined(whole, cuts, n)
    &&& forall|t: int, u: int|
        #![trigger cuts[t], cuts[u]]
        0 <= t < n && u == t + 1 ==> holds_lanes_of(
            whole.subrange(cuts[t], cuts[u]),
            tracks[t].id,
            tracks[t].automation_lanes,
            range,
            sums[t]@,
        )
}

proof fn lemma_joined<A>(front: Seq<A>, piece: Seq<A>, cuts: Seq<int>, n: int)
    requires
        are_joined(front, cuts, n),
        n >= 0,
    ensures
        ({
            let whole = front + piece;
            let now = cuts.push(whole.len() as int);
            &&& are_joined(whole, now, n + 1)
            &&& whole.subrange(now[n], now[n + 1]) == piece
            &&& forall|i: int, j: int|
                #![trigger cuts[i], cuts[j]]
                0 <= i <= j <= n ==> whole.subrange(cuts[i], cuts[j]) == front.subrange(cuts[i], cuts[j])
        }),
{
    let whole = front + piece;
    let now = cuts.push(whole.len() as int);
    assert(whole.subrange(now[n], now[n + 1]) =~= piece);
    assert forall|i: int, j: int| 0 <= i <= j <= n + 1 implies 0 <= #[trigger] now[i] <= #[trigger] now[j]
        <= whole.len() by {
        assert(i <= n ==> now[i] == cuts[i]);
        assert(j <= n ==> now[j] == cuts[j]);
        if i <= n {
            assert(cuts[i] <= cuts[n]);
        }
    }
    assert forall|i: int, j: int|
        #![trigger cuts[i], cuts[j]]
        0 <= i <= j <= n implies whole.subrange(cuts[i], cuts[j]) == front.subrange(cuts[i], cuts[j]) by {
        assert(whole.subrange(cuts[i], cuts[j]) =~= front.subrange(cuts[i], cuts[j]));
    }
}

proof fn lemma_tracks_held(tracks: Seq<TrackModel>, range: TimeRange, sums: Seq<Vec<ClipSums>>, n: int) -> (cuts: Seq<int>)
    requires
        0 <= n <= tracks.len(),
        sums.len() == tracks.len(),
    ensures
        holds_tracks(
            time_ops::clips_of_tracks(tracks, range, time_ops::by_lane(sums), n as nat),
            tracks,
            range,
            sums,
            cuts,
            n,
        ),
    decreases n,
{
    if n == 0 {
        seq![0int]
    } else {
        let m = n - 1;
        let before = lemma_tracks_held(tracks, range, sums, m);
        let front = time_ops::clips_of_tracks(tracks, range, time_ops::by_lane(sums), m as nat);
        let t = tracks[m];
        let piece = time_ops::parts_of_clips(t.id, t.clips, range, sums[m]@, t.clips.len());
        let at = lemma_parts(t.id, t.clips, range, sums[m]@, t.clips.len());
        assert(holds_track(piece, t, range, sums[m]@));
        lemma_joined(front, piece, before, m);
        let whole = front + piece;
        let cuts = before.push(whole.len() as int);
        assert forall|t: int, u: int|
            #![trigger cuts[t], cuts[u]]
            0 <= t < n && u == t + 1 implies holds_track(whole.subrange(cuts[t], cuts[u]), tracks[t], range, sums[t]@) by {
            if u < n {
                assert(cuts[t] == before[t] && cuts[u] == before[u]);
                assert(holds_track(front.subrange(before[t], before[u]), tracks[t], range, sums[t]@));
            }
        }
        cuts
    }
}

proof fn lemma_lanes_held(id: u32, lanes: Seq<LaneModel>, range: TimeRange, sums: Seq<Vec<ClipSums>>, n: int) -> (cuts: Seq<
    int,
>)
    requires
        0 <= n <= lanes.len(),
        sums.len() == lanes.len(),
    ensures
        holds_lanes(
            time_ops::parts_of_lanes(id, lanes, range, time_ops::by_lane(sums), n as nat),
            id,
            lanes,
            range,
            sums,
            cuts,
            n,
        ),
    decreases n,
{
    if n == 0 {
        seq![0int]
    } else {
        let m = n - 1;
        let before = lemma_lanes_held(id, lanes, range, sums, m);
        let front = time_ops::parts_of_lanes(id, lanes, range, time_ops::by_lane(sums), m as nat);
        let l = lanes[m];
        let piece = time_ops::parts_of_lane(id, l.id, l.clips, range, sums[m]@, l.clips.len());
        let at = lemma_lane_parts(id, l.id, l.clips, range, sums[m]@, l.clips.len());
        assert(holds_lane(piece, id, l, range, sums[m]@));
        lemma_joined(front, piece, before, m);
        let whole = front + piece;
        let cuts = before.push(whole.len() as int);
        assert forall|t: int, u: int|
            #![trigger cuts[t], cuts[u]]
            0 <= t < n && u == t + 1 implies holds_lane(
            whole.subrange(cuts[t], cuts[u]),
            id,
            lanes[t],
            range,
            sums[t]@,
        ) by {
            if u < n {
                assert(cuts[t] == before[t] && cuts[u] == before[u]);
                assert(holds_lane(front.subrange(before[t], before[u]), id, lanes[t], range, sums[t]@));
            }
        }
        cuts
    }
}

proof fn lemma_lanes_of_tracks_held(
    tracks: Seq<TrackModel>,
    range: TimeRange,
    sums: Seq<Vec<Vec<ClipSums>>>,
    n: int,
) -> (cuts: Seq<int>)
    requires
        0 <= n <= tracks.len(),
        sums.len() == tracks.len(),
        forall|t: int| 0 <= t < tracks.len() ==> sums[t]@.len() == (#[trigger] tracks[t]).automation_lanes.len(),
    ensures
        holds_lanes_of_tracks(
            time_ops::lanes_of_tracks(tracks, range, time_ops::by_track(sums), n as nat),
            tracks,
            range,
            sums,
            cuts,
            n,
        ),
    decreases n,
{
    if n == 0 {
        seq![0int]
    } else {
        let m = n - 1;
        let before = lemma_lanes_of_tracks_held(tracks, range, sums, m);
        let front = time_ops::lanes_of_tracks(tracks, range, time_ops::by_track(sums), m as nat);
        let t = tracks[m];
        let piece = time_ops::parts_of_lanes(
            t.id,
            t.automation_lanes,
            range,
            time_ops::by_lane(sums[m]@),
            t.automation_lanes.len(),
        );
        let inner = lemma_lanes_held(t.id, t.automation_lanes, range, sums[m]@, t.automation_lanes.len() as int);
        assert(holds_lanes_of(piece, t.id, t.automation_lanes, range, sums[m]@));
        lemma_joined(front, piece, before, m);
        let whole = front + piece;
        let cuts = before.push(whole.len() as int);
        assert forall|t: int, u: int|
            #![trigger cuts[t], cuts[u]]
            0 <= t < n && u == t + 1 implies holds_lanes_of(
            whole.subrange(cuts[t], cuts[u]),
            tracks[t].id,
            tracks[t].automation_lanes,
            range,
            sums[t]@,
        ) by {
            if u < n {
                assert(cuts[t] == before[t] && cuts[u] == before[u]);
                assert(holds_lanes_of(
                    front.subrange(before[t], before[u]),
                    tracks[t].id,
                    tracks[t].automation_lanes,
                    range,
                    sums[t]@,
                ));
            }
        }
        cuts
    }
}

/// What was copied of a song is what its tracks hold in the range, then what their lanes
/// do, and then what its own lanes do: of every clip that shares time with the range the
/// part that lies in it, and nothing else.
pub proof fn law_copying_takes_what_lies_in_the_range(
    song: SongModel,
    range: TimeRange,
    sums: RangeSums,
    changes: Seq<ScaleChange>,
    sections: Seq<SectionModel>,
    names: Seq<(u32, Seq<char>)>,
)
    requires
        sums.fits(song, changes.len(), sections.len()),
    ensures
        ({
            let copy = time_ops::copied(song, range, sums, changes, sections, names);
            let n = song.tracks.len() as int;
            &&& copy.span_beats == range.span
            &&& exists|cuts: Seq<int>| #[trigger] holds_tracks(copy.clips, song.tracks, range, sums.clips@, cuts, n)
            &&& exists|cut: int|
                0 <= cut <= copy.automation.len() && holds_all_lanes(#[trigger] copy.automation.take(cut), song.tracks, range, sums.lanes@)
                    && holds_lanes_of(
                    copy.automation.skip(cut),
                    MASTER_TRACK_ID,
                    song.song_lanes,
                    range,
                    sums.song_lanes@,
                )
        }),
{
    let copy = time_ops::copied(song, range, sums, changes, sections, names);
    let n = song.tracks.len() as int;
    let cuts = lemma_tracks_held(song.tracks, range, sums.clips@, n);
    assert(holds_tracks(copy.clips, song.tracks, range, sums.clips@, cuts, n));
    assert forall|t: int| 0 <= t < song.tracks.len() implies sums.lanes@[t]@.len() == (
    #[trigger] song.tracks[t]).automation_lanes.len() by {
        assert(time_ops::by_lane(sums.lanes@[t]@).len() == sums.lanes@[t]@.len());
    }
    let inner = lemma_lanes_of_tracks_held(song.tracks, range, sums.lanes@, n);
    let a = time_ops::lanes_of_tracks(song.tracks, range, time_ops::by_track(sums.lanes@), n as nat);
    let b = time_ops::parts_of_lanes(
        MASTER_TRACK_ID,
        song.song_lanes,
        range,
        time_ops::by_lane(sums.song_lanes@),
        song.song_lanes.len(),
    );
    assert(time_ops::by_lane(sums.song_lanes@).len() == sums.song_lanes@.len());
    let own = lemma_lanes_held(MASTER_TRACK_ID, song.song_lanes, range, sums.song_lanes@, song.song_lanes.len() as int);
    assert(holds_all_lanes(a, song.tracks, range, sums.lanes@));
    assert(holds_lanes_of(b, MASTER_TRACK_ID, song.song_lanes, range, sums.song_lanes@));
    let cut = a.len() as int;
    assert(copy.automation.take(cut) =~= a);
    assert(copy.automation.skip(cut) =~= b);
}

/// Whether a piece of what was copied is what the lanes of all tracks hold in the range.
pub open spec fn holds_all_lanes(
    piece: Seq<(u32, u32, AutomationClip)>,
    tracks: Seq<TrackModel>,
    range: TimeRange,
    sums: Seq<Vec<Vec<ClipSums>>>,
) -> bool {
    exists|cuts: Seq<int>| #[trigger] holds_lanes_of_tracks(piece, tracks, range, sums, cuts, tracks.len() as int)
}

// ---------------------------------------------------------------------------
// Changes of key, sections and contents
// ---------------------------------------------------------------------------

/// Whether changes of key are those of others that lie in a range, each where it lies
/// there.
pub open spec fn are_changes_within(
    now: Seq<ScaleChange>,
    was: Seq<ScaleChange>,
    moved: Seq<Beat>,
    range: TimeRange,
    at: Seq<int>,
    n: int,
) -> bool {
    &&& at.len() == now.len()
    &&& time_laws::are_ordered(at, n as nat)
    &&& forall|i: int|
        0 <= i < n ==> (#[trigger] at.contains(i) <==> time_laws::is_within(was[i].beat, range.start, range.end))
    &&& forall|k: int|
        0 <= k < now.len() ==> now[k] == (ScaleChange { beat: moved[#[trigger] at[k]], ..was[at[k]] })
}

proof fn lemma_changes_within(changes: Seq<ScaleChange>, moved: Seq<Beat>, range: TimeRange, n: int) -> (at: Seq<int>)
    requires
        0 <= n <= changes.len(),
    ensures
        are_changes_within(
            time_ops::changes_within(changes, moved, range, n as nat),
            changes,
            moved,
            range,
            at,
            n,
        ),
    decreases n,
{
    if n == 0 {
        Seq::empty()
    } else {
        let m = n - 1;
        let before = lemma_changes_within(changes, moved, range, m);
        let front = time_ops::changes_within(changes, moved, range, m as nat);
        let now = time_ops::changes_within(changes, moved, range, n as nat);
        time_laws::lemma_grown(before, m);
        let at = if time_laws::is_within(changes[m].beat, range.start, range.end) {
            before.push(m)
        } else {
            before
        };
        assert forall|i: int| 0 <= i < n implies (#[trigger] at.contains(i) <==> time_laws::is_within(
            changes[i].beat,
            range.start,
            range.end,
        )) by {
            assert(before.push(m).contains(i) <==> before.contains(i) || i == m);
            if i < m {
                assert(before.contains(i) <==> time_laws::is_within(changes[i].beat, range.start, range.end));
            }
        }
        assert forall|k: int| 0 <= k < now.len() implies now[k] == (ScaleChange {
            beat: moved[#[trigger] at[k]],
            ..changes[at[k]]
        }) by {
            if k < front.len() {
                assert(now[k] == front[k]);
                assert(before[k] < m);
            }
        }
        at
    }
}

/// Of the changes of key those in the range are copied, and no others.
pub proof fn law_copied_changes_lie_in_the_range(changes: Seq<ScaleChange>, moved: Seq<Beat>, range: TimeRange)
    ensures
        exists|at: Seq<int>| #[trigger]
            are_changes_within(
                time_ops::changes_within(changes, moved, range, changes.len()),
                changes,
                moved,
                range,
                at,
                changes.len() as int,
            ),
{
    let at = lemma_changes_within(changes, moved, range, changes.len() as int);
}

/// Whether a section is another one where it lies in a range, at its beginning at the
/// earliest.
pub open spec fn is_section_within(now: SectionModel, was: SectionModel, at: (Beat, Beat)) -> bool {
    &&& now.id == was.id
    &&& now.name == was.name
    &&& now.len_beats == was.len_beats
    &&& zero().lt(at.0) ==> now.start_beat == at.0 && now.end_beat == at.1
    &&& !zero().lt(at.0) ==> now.start_beat == zero() && now.end_beat == was.len_beats
}

/// Whether sections are those of others that lie in a range, with some tolerance.
pub open spec fn are_sections_within(
    now: Seq<SectionModel>,
    was: Seq<SectionModel>,
    moved: Seq<(Beat, Beat)>,
    range: TimeRange,
    at: Seq<int>,
    n: int,
) -> bool {
    &&& at.len() == now.len()
    &&& time_laws::are_ordered(at, n as nat)
    &&& forall|i: int|
        0 <= i < n ==> (#[trigger] at.contains(i) <==> range.outer_start.le(was[i].start_beat) && was[i].end_beat.le(
            range.outer_end,
        ))
    &&& forall|k: int| 0 <= k < now.len() ==> is_section_within(now[k], was[#[trigger] at[k]], moved[at[k]])
}

proof fn lemma_sections_within(
    sections: Seq<SectionModel>,
    moved: Seq<(Beat, Beat)>,
    range: TimeRange,
    n: int,
) -> (at: Seq<int>)
    requires
        0 <= n <= sections.len(),
    ensures
        are_sections_within(
            time_ops::sections_within(sections, moved, range, n as nat),
            sections,
            moved,
            range,
            at,
            n,
        ),
    decreases n,
{
    if n == 0 {
        Seq::empty()
    } else {
        let m = n - 1;
        let before = lemma_sections_within(sections, moved, range, m);
        let front = time_ops::sections_within(sections, moved, range, m as nat);
        let now = time_ops::sections_within(sections, moved, range, n as nat);
        time_laws::lemma_grown(before, m);
        let s = sections[m];
        let at = if range.outer_start.le(s.start_beat) && s.end_beat.le(range.outer_end) {
            before.push(m)
        } else {
            before
        };
        assert forall|i: int| 0 <= i < n implies (#[trigger] at.contains(i) <==> range.outer_start.le(
            sections[i].start_beat,
        ) && sections[i].end_beat.le(range.outer_end)) by {
            assert(before.push(m).contains(i) <==> before.contains(i) || i == m);
            if i < m {
                assert(before.contains(i) <==> range.outer_start.le(sections[i].start_beat) && sections[i].end_beat.le(
                    range.outer_end,
                ));
            }
        }
        assert forall|k: int| 0 <= k < now.len() implies is_section_within(
            now[k],
            sections[#[trigger] at[k]],
            moved[at[k]],
        ) by {
            if k < front.len() {
                assert(now[k] == front[k]);
                assert(before[k] < m);
            }
        }
        at
    }
}

/// Of the sections those that lie in the range are copied, and no others.
pub proof fn law_copied_sections_lie_in_the_range(sections: Seq<SectionModel>, moved: Seq<(Beat, Beat)>, range: TimeRange)
    ensures
        exists|at: Seq<int>| #[trigger]
            are_sections_within(
                time_ops::sections_within(sections, moved, range, sections.len()),
                sections,
                moved,
                range,
                at,
                sections.len() as int,
            ),
{
    let at = lemma_sections_within(sections, moved, range, sections.len() as int);
}

/// Whether the first content with an id is at a place.
pub open spec fn is_first_content(contents: Seq<(u32, ContentModel)>, id: u32, i: int) -> bool {
    &&& 0 <= i < contents.len()
    &&& contents[i].0 == id
    &&& forall|k: int| 0 <= k < i ==> (#[trigger] contents[k]).0 != id
}

/// Whether a name is that of a content: the first with its id, or empty.
pub open spec fn is_name_of(name: Seq<char>, names: Seq<(u32, Seq<char>)>, id: u32) -> bool {
    ||| name.len() == 0 && forall|k: int| 0 <= k < names.len() ==> (#[trigger] names[k]).0 != id
    ||| exists|i: int|
        0 <= i < names.len() && (#[trigger] names[i]) == (id, name) && forall|k: int|
            0 <= k < i ==> (#[trigger] names[k]).0 != id
}

proof fn lemma_content_place(contents: Seq<(u32, ContentModel)>, id: u32, from: int)
    requires
        0 <= from,
    ensures
        match time_ops::content_place(contents, id, from) {
            Some(i) => from <= i < contents.len() && contents[i].0 == id && forall|k: int|
                from <= k < i ==> (#[trigger] contents[k]).0 != id,
            None => forall|k: int| from <= k < contents.len() ==> (#[trigger] contents[k]).0 != id,
        },
    decreases contents.len() - from,
{
    if from < contents.len() && contents[from].0 != id {
        lemma_content_place(contents, id, from + 1);
    }
}

proof fn lemma_name_of(names: Seq<(u32, Seq<char>)>, id: u32, from: int)
    requires
        0 <= from <= names.len(),
        forall|k: int| 0 <= k < from ==> (#[trigger] names[k]).0 != id,
    ensures
        is_name_of(time_ops::name_of(names, id, from), names, id),
    decreases names.len() - from,
{
    if from < names.len() && names[from].0 != id {
        lemma_name_of(names, id, from + 1);
    } else if from < names.len() {
        assert(names[from] == (id, time_ops::name_of(names, id, from)));
    }
}

/// Whether a copy of a content is right: it is the content that the song has under that
/// id, with its name.
pub open spec fn is_copy_of(
    c: CopiedModel,
    contents: Seq<(u32, ContentModel)>,
    names: Seq<(u32, Seq<char>)>,
) -> bool {
    &&& exists|i: int| #[trigger] is_first_content(contents, c.id, i) && c.content == contents[i].1
    &&& is_name_of(c.name, names, c.id)
}

/// Every content that is wanted and that is there is copied, and nothing else is.
pub proof fn law_wanted_contents_are_copied(
    wanted: Seq<u32>,
    contents: Seq<(u32, ContentModel)>,
    names: Seq<(u32, Seq<char>)>,
)
    ensures
        ({
            let copies = time_ops::contents_for(wanted, contents, names);
            &&& forall|k: int|
                0 <= k < copies.len() ==> is_copy_of(#[trigger] copies[k], contents, names) && wanted.contains(
                    copies[k].id,
                )
            &&& forall|w: int, i: int|
                0 <= w < wanted.len() && 0 <= i < contents.len() && (#[trigger] contents[i]).0 == #[trigger] wanted[w]
                    ==> exists|k: int| 0 <= k < copies.len() && (#[trigger] copies[k]).id == wanted[w]
            &&& forall|k: int, l: int| 0 <= k < l < copies.len() ==> (#[trigger] copies[k]).id != (#[trigger] copies[l]).id
        }),
    decreases wanted.len(),
{
    if wanted.len() > 0 {
        let front = wanted.drop_last();
        let id = wanted.last();
        law_wanted_contents_are_copied(front, contents, names);
        lemma_content_place(contents, id, 0);
        lemma_name_of(names, id, 0);
        let before = time_ops::contents_for(front, contents, names);
        let copies = time_ops::contents_for(wanted, contents, names);
        assert(wanted[wanted.len() - 1] == id);
        assert forall|k: int| 0 <= k < copies.len() implies is_copy_of(#[trigger] copies[k], contents, names)
            && wanted.contains(copies[k].id) by {
            if k < before.len() {
                assert(copies[k] == before[k]);
                let w = choose|w: int| 0 <= w < front.len() && front[w] == before[k].id;
                assert(wanted[w] == before[k].id);
            } else {
                let i = time_ops::content_place(contents, id, 0)->0;
                assert(is_first_content(contents, id, i));
            }
        }
        assert forall|w: int, i: int|
            0 <= w < wanted.len() && 0 <= i < contents.len() && (#[trigger] contents[i]).0
                == #[trigger] wanted[w] implies exists|k: int|
            0 <= k < copies.len() && (#[trigger] copies[k]).id == wanted[w] by {
            if w < front.len() {
                assert(front[w] == wanted[w]);
                let k = choose|k: int| 0 <= k < before.len() && (#[trigger] before[k]).id == front[w];
                assert(copies[k] == before[k]);
            } else if time_ops::has_copy(before, id) {
                let k = choose|k: int| 0 <= k < before.len() && (#[trigger] before[k]).id == id;
                assert(copies[k] == before[k]);
            } else {
                assert(copies[before.len() as int].id == id);
            }
        }
    }
}

/// A copy carries everything that its clips show and the song has, each once and with its
/// name.
pub proof fn law_a_copy_carries_what_it_shows(
    song: SongModel,
    range: TimeRange,
    sums: RangeSums,
    changes: Seq<ScaleChange>,
    sections: Seq<SectionModel>,
    names: Seq<(u32, Seq<char>)>,
)
    ensures
        ({
            let copy = time_ops::copied(song, range, sums, changes, sections, names);
            &&& forall|k: int|
                0 <= k < copy.contents.len() ==> is_copy_of(#[trigger] copy.contents[k], song.clip_contents, names)
            &&& forall|j: int, i: int|
                0 <= j < copy.clips.len() && 0 <= i < song.clip_contents.len() && (#[trigger] song.clip_contents[i]).0 == (
                #[trigger] copy.clips[j]).1.content_id ==> exists|k: int|
                    0 <= k < copy.contents.len() && (#[trigger] copy.contents[k]).id == copy.clips[j].1.content_id
            &&& forall|j: int, i: int|
                0 <= j < copy.automation.len() && 0 <= i < song.clip_contents.len() && (
                #[trigger] song.clip_contents[i]).0 == (#[trigger] copy.automation[j]).2.content_id ==> exists|k: int|
                    0 <= k < copy.contents.len() && (#[trigger] copy.contents[k]).id == copy.automation[j].2.content_id
        }),
{
    let copy = time_ops::copied(song, range, sums, changes, sections, names);
    let wanted = time_ops::shown_by(copy.clips, copy.automation);
    law_wanted_contents_are_copied(wanted, song.clip_contents, names);
    let copies = time_ops::contents_for(wanted, song.clip_contents, names);
    assert(copy.contents == copies);
    assert forall|j: int, i: int|
        0 <= j < copy.clips.len() && 0 <= i < song.clip_contents.len() && (#[trigger] song.clip_contents[i]).0 == (
        #[trigger] copy.clips[j]).1.content_id implies exists|k: int|
        0 <= k < copy.contents.len() && (#[trigger] copy.contents[k]).id == copy.clips[j].1.content_id by {
        assert(wanted[j] == copy.clips[j].1.content_id);
        let k = choose|k: int| 0 <= k < copies.len() && (#[trigger] copies[k]).id == wanted[j];
        assert(copy.contents[k].id == copy.clips[j].1.content_id);
    }
    assert forall|j: int, i: int|
        0 <= j < copy.automation.len() && 0 <= i < song.clip_contents.len() && (#[trigger] song.clip_contents[i]).0 == (
        #[trigger] copy.automation[j]).2.content_id implies exists|k: int|
        0 <= k < copy.contents.len() && (#[trigger] copy.contents[k]).id == copy.automation[j].2.content_id by {
        let w = copy.clips.len() + j;
        assert(wanted[w] == copy.automation[j].2.content_id);
        let k = choose|k: int| 0 <= k < copies.len() && (#[trigger] copies[k]).id == wanted[w];
        assert(copy.contents[k].id == copy.automation[j].2.content_id);
    }
}

// ---------------------------------------------------------------------------
// Copies from outside
// ---------------------------------------------------------------------------

/// Whether a number is a moment of a copy: it is one, and not before its beginning.
pub open spec fn is_moment(x: Beat) -> bool {
    x.is_finite() && x.rank() >= 0
}

/// Whether a number is a length: it is one, and something lasts that long.
pub open spec fn is_length(x: Beat) -> bool {
    x.is_finite() && x.rank() > 0
}

/// Of a copy from outside everything stays that starts at a moment, lasts, and shows
/// something from somewhere on; and nothing else.
pub proof fn law_what_makes_sense_stays(c: TimeRangeModel)
    ensures
        ({
            let now = time_ops::sane_copy(c);
            &&& now.span_beats == c.span_beats
            &&& now.contents == c.contents
            &&& time_laws::is_what_is_left(
                now.clips,
                c.clips,
                |x: (u32, Clip)|
                    !(is_moment(x.1.start_beat) && is_length(x.1.length_beats) && x.1.content_offset_beats.is_finite()),
            )
            &&& time_laws::is_what_is_left(
                now.automation,
                c.automation,
                |x: (u32, u32, AutomationClip)|
                    !(is_moment(x.2.start_beat) && is_length(x.2.length_beats) && x.2.content_offset_beats.is_finite()),
            )
            &&& time_laws::is_what_is_left(now.scale_changes, c.scale_changes, |x: ScaleChange| !is_moment(x.beat))
            &&& time_laws::is_what_is_left(
                now.sections,
                c.sections,
                |x: SectionModel| !(is_moment(x.start_beat) && is_length(x.len_beats)),
            )
        }),
{
    time_laws::lemma_filtered(
        c.clips,
        |c: (u32, Clip)| time_ops::is_sane(c.1.start_beat, c.1.length_beats, c.1.content_offset_beats),
        |x: (u32, Clip)|
            !(is_moment(x.1.start_beat) && is_length(x.1.length_beats) && x.1.content_offset_beats.is_finite()),
    );
    time_laws::lemma_filtered(
        c.automation,
        |c: (u32, u32, AutomationClip)|
            time_ops::is_sane(c.2.start_beat, c.2.length_beats, c.2.content_offset_beats),
        |x: (u32, u32, AutomationClip)|
            !(is_moment(x.2.start_beat) && is_length(x.2.length_beats) && x.2.content_offset_beats.is_finite()),
    );
    time_laws::lemma_filtered(
        c.scale_changes,
        |c: ScaleChange| c.beat.is_finite() && (Beat { bits: 0 }).le(c.beat),
        |x: ScaleChange| !is_moment(x.beat),
    );
    time_laws::lemma_filtered(
        c.sections,
        |x: SectionModel| time_ops::is_sane(x.start_beat, x.len_beats, Beat { bits: 0 }),
        |x: SectionModel| !(is_moment(x.start_beat) && is_length(x.len_beats)),
    );
}

} // verus!
