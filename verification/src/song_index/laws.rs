//! What holds of what an index answers.

use super::launcher;
use super::launcher::{Row, RowAt};
use super::params;
use super::params::ParamSubject;
use super::positions;
use super::ranges;
use crate::beat::Beat;
use crate::model::automation::{AutomationTarget, LaneModel, ModRouting, TrackBuiltinParam};
use crate::model::ids;
use crate::model::lookup;
use crate::model::track_enable;
use crate::model::{ChainModel, DeviceModel, SongModel, TrackModel, MASTER_TRACK_ID};
use vstd::prelude::*;

verus! {

// ---------------------------------------------------------------------------
// Intervals
// ---------------------------------------------------------------------------

/// Whether a moment lies in an interval: not before it starts, and before it ends.
pub open spec fn lies_within(x: Beat, iv: (Beat, Beat)) -> bool {
    iv.0.le(x) && x.lt(iv.1)
}

/// The interval that covers a moment is the first in which it lies; there is none if and
/// only if it lies in none.
pub proof fn law_the_first_interval_covers(ivs: Seq<(Beat, Beat)>, x: Beat)
    ensures
        match ranges::covering(ivs, x) {
            Some(i) => 0 <= i < ivs.len() && lies_within(x, ivs[i]) && forall|k: int|
                0 <= k < i ==> !lies_within(x, #[trigger] ivs[k]),
            None => forall|k: int| 0 <= k < ivs.len() ==> !lies_within(x, #[trigger] ivs[k]),
        },
{
    lemma_covering(ivs, x, 0);
}

proof fn lemma_covering(ivs: Seq<(Beat, Beat)>, x: Beat, from: int)
    requires
        0 <= from,
    ensures
        match ranges::covering_from(ivs, x, from) {
            Some(i) => from <= i < ivs.len() && lies_within(x, ivs[i]) && forall|k: int|
                from <= k < i ==> !lies_within(x, #[trigger] ivs[k]),
            None => forall|k: int| from <= k < ivs.len() ==> !lies_within(x, #[trigger] ivs[k]),
        },
    decreases ivs.len() - from,
{
    if from < ivs.len() {
        let iv = ivs[from];
        assert(lies_within(x, iv) == ranges::covers(iv, x));
        if !ranges::covers(iv, x) {
            lemma_covering(ivs, x, from + 1);
        }
    }
}

/// The intervals that may meet a window are all those that start at its end or before and
/// end at its start or behind, or nowhere, in order.
pub proof fn law_intervals_meet_a_window(ivs: Seq<(Beat, Beat)>, lo: Beat, hi: Beat)
    requires
        lo.is_finite(),
    ensures
        ({
            let met = ranges::meeting(ivs, lo, hi);
            &&& forall|k: int, l: int| 0 <= k < l < met.len() ==> #[trigger] met[k] < #[trigger] met[l]
            &&& forall|i: int|
                #[trigger] met.contains(i) <==> 0 <= i < ivs.len() && ivs[i].0.le(hi) && (ivs[i].1.is_nan() || lo.le(
                    ivs[i].1,
                ))
        }),
{
    ranges::lemma_meeting(ivs, lo, hi);
    let met = ranges::meeting(ivs, lo, hi);
    assert forall|i: int|
        #[trigger] met.contains(i) <==> 0 <= i < ivs.len() && ivs[i].0.le(hi) && (ivs[i].1.is_nan() || lo.le(
            ivs[i].1,
        )) by {
        if 0 <= i < ivs.len() {
            assert(met.contains(i) <==> ranges::meets(ivs[i], lo, hi));
        }
    }
}

// ---------------------------------------------------------------------------
// Rows
// ---------------------------------------------------------------------------

/// Whether a lane has a row: every one but those of the tempo and the time signature.
pub open spec fn has_row(lane: LaneModel) -> bool {
    lane.target !is SongTempo && lane.target !is SongTimeSigNumerator
}

/// Whether the launcher has a row: that of a track that runs, that of a lane of one, or
/// that of a lane of the song.
pub open spec fn is_row(song: SongModel, row: Row) -> bool {
    match row.at {
        RowAt::Track(t) => {
            &&& t < song.tracks.len()
            &&& track_enable::runs(song.tracks, t as int)
            &&& row.track_id == song.tracks[t as int].id
            &&& row.lane_id == 0
        },
        RowAt::TrackLane(t, l) => {
            &&& t < song.tracks.len()
            &&& track_enable::runs(song.tracks, t as int)
            &&& l < song.tracks[t as int].automation_lanes.len()
            &&& has_row(song.tracks[t as int].automation_lanes[l as int])
            &&& row.track_id == song.tracks[t as int].id
            &&& row.lane_id == song.tracks[t as int].automation_lanes[l as int].id
        },
        RowAt::SongLane(l) => {
            &&& l < song.song_lanes.len()
            &&& has_row(song.song_lanes[l as int])
            &&& row.track_id == MASTER_TRACK_ID
            &&& row.lane_id == song.song_lanes[l as int].id
        },
    }
}

/// Where a row stands: those of tracks in order, each with its own row before those of its
/// lanes, and those of the song behind them.
pub open spec fn standing(at: RowAt) -> (int, int) {
    match at {
        RowAt::Track(t) => (t as int, -1),
        RowAt::TrackLane(t, l) => (t as int, l as int),
        RowAt::SongLane(l) => (usize::MAX + 1, l as int),
    }
}

/// Whether a row stands before another one.
pub open spec fn stands_before(a: RowAt, b: RowAt) -> bool {
    standing(a).0 < standing(b).0 || standing(a).0 == standing(b).0 && standing(a).1 < standing(b).1
}

proof fn lemma_lane_rows(lanes: Seq<LaneModel>, track_id: u32, track: Option<usize>)
    requires
        lanes.len() <= usize::MAX,
    ensures
        ({
            let rows = launcher::lane_rows(lanes, track_id, track);
            &&& forall|k: int| 0 <= k < rows.len() ==> is_lane_row(#[trigger] rows[k], lanes, track_id, track)
            &&& forall|l: int|
                0 <= l < lanes.len() && has_row(#[trigger] lanes[l]) ==> exists|k: int|
                    0 <= k < rows.len() && (#[trigger] rows[k]).at == lane_at(track, l)
            &&& forall|k: int, m: int|
                0 <= k < m < rows.len() ==> stands_before((#[trigger] rows[k]).at, (#[trigger] rows[m]).at)
        }),
    decreases lanes.len(),
{
    if lanes.len() > 0 {
        let front = lanes.drop_last();
        let n = lanes.len() - 1;
        lemma_lane_rows(front, track_id, track);
        let before = launcher::lane_rows(front, track_id, track);
        let rows = launcher::lane_rows(lanes, track_id, track);
        assert forall|k: int| 0 <= k < rows.len() implies is_lane_row(#[trigger] rows[k], lanes, track_id, track) by {
            if k < before.len() {
                assert(rows[k] == before[k]);
            }
        }
        assert forall|l: int| 0 <= l < lanes.len() && has_row(#[trigger] lanes[l]) implies exists|k: int|
            0 <= k < rows.len() && (#[trigger] rows[k]).at == lane_at(track, l) by {
            if l < n {
                assert(front[l] == lanes[l]);
                let k = choose|k: int| 0 <= k < before.len() && (#[trigger] before[k]).at == lane_at(track, l);
                assert(rows[k] == before[k]);
            } else {
                assert(rows[before.len() as int].at == lane_at(track, l));
            }
        }
        assert forall|k: int, m: int| 0 <= k < m < rows.len() implies stands_before(
            (#[trigger] rows[k]).at,
            (#[trigger] rows[m]).at,
        ) by {
            assert(rows[k] == before[k]);
            assert(is_lane_row(before[k], front, track_id, track));
            if m < before.len() {
                assert(rows[m] == before[m]);
            }
        }
    }
}

/// Where the row of a lane is kept.
pub open spec fn lane_at(track: Option<usize>, l: int) -> RowAt {
    match track {
        Some(t) => RowAt::TrackLane(t, l as usize),
        None => RowAt::SongLane(l as usize),
    }
}

spec fn is_lane_row(row: Row, lanes: Seq<LaneModel>, track_id: u32, track: Option<usize>) -> bool {
    let l = match row.at {
        RowAt::TrackLane(_, l) => l as int,
        RowAt::SongLane(l) => l as int,
        RowAt::Track(_) => -1,
    };
    &&& 0 <= l < lanes.len()
    &&& row.at == lane_at(track, l)
    &&& has_row(lanes[l])
    &&& row.track_id == track_id
    &&& row.lane_id == lanes[l].id
}

proof fn lemma_track_rows(song: SongModel, n: nat)
    requires
        n <= song.tracks.len() <= usize::MAX,
        forall|t: int| 0 <= t < song.tracks.len() ==> (#[trigger] song.tracks[t]).automation_lanes.len() <= usize::MAX,
    ensures
        ({
            let rows = launcher::track_rows(song.tracks, n);
            &&& forall|k: int|
                0 <= k < rows.len() ==> is_row(song, #[trigger] rows[k]) && standing(rows[k].at).0 < n
                    && rows[k].at !is SongLane
            &&& forall|t: int|
                0 <= t < n && #[trigger] track_enable::runs(song.tracks, t) ==> exists|k: int|
                    0 <= k < rows.len() && (#[trigger] rows[k]).at == RowAt::Track(t as usize)
            &&& forall|t: int, l: int|
                0 <= t < n && track_enable::runs(song.tracks, t) && 0 <= l < song.tracks[t].automation_lanes.len()
                    && has_row(#[trigger] song.tracks[t].automation_lanes[l]) ==> exists|k: int|
                    0 <= k < rows.len() && (#[trigger] rows[k]).at == RowAt::TrackLane(t as usize, l as usize)
            &&& forall|k: int, m: int|
                0 <= k < m < rows.len() ==> stands_before((#[trigger] rows[k]).at, (#[trigger] rows[m]).at)
        }),
    decreases n,
{
    if n > 0 {
        let i = n - 1;
        lemma_track_rows(song, i as nat);
        let t = song.tracks[i];
        let front = launcher::track_rows(song.tracks, i as nat);
        let rows = launcher::track_rows(song.tracks, n);
        let own = Row { track_id: t.id, lane_id: 0, at: RowAt::Track(i as usize) };
        let lanes = launcher::lane_rows(t.automation_lanes, t.id, Some(i as usize));
        lemma_lane_rows(t.automation_lanes, t.id, Some(i as usize));
        if track_enable::runs(song.tracks, i) {
            let f = front.len() as int;
            assert(rows[f] == own);
            assert forall|k: int| f < k < rows.len() implies #[trigger] rows[k] == lanes[k - f - 1] by {}
            assert forall|k: int| 0 <= k < rows.len() implies is_row(song, #[trigger] rows[k]) && standing(
                rows[k].at,
            ).0 < n && rows[k].at !is SongLane by {
                if k < f {
                    assert(rows[k] == front[k]);
                } else if k > f {
                    assert(rows[k] == lanes[k - f - 1]);
                    assert(is_lane_row(lanes[k - f - 1], t.automation_lanes, t.id, Some(i as usize)));
                }
            }
            assert forall|u: int| 0 <= u < n && #[trigger] track_enable::runs(song.tracks, u) implies exists|k: int|
                0 <= k < rows.len() && (#[trigger] rows[k]).at == RowAt::Track(u as usize) by {
                if u < i {
                    let k = choose|k: int| 0 <= k < front.len() && (#[trigger] front[k]).at == RowAt::Track(u as usize);
                    assert(rows[k] == front[k]);
                }
            }
            assert forall|u: int, l: int|
                0 <= u < n && track_enable::runs(song.tracks, u) && 0 <= l < song.tracks[u].automation_lanes.len()
                    && has_row(#[trigger] song.tracks[u].automation_lanes[l]) implies exists|k: int|
                0 <= k < rows.len() && (#[trigger] rows[k]).at == RowAt::TrackLane(u as usize, l as usize) by {
                if u < i {
                    let k = choose|k: int|
                        0 <= k < front.len() && (#[trigger] front[k]).at == RowAt::TrackLane(u as usize, l as usize);
                    assert(rows[k] == front[k]);
                } else {
                    let k = choose|k: int|
                        0 <= k < lanes.len() && (#[trigger] lanes[k]).at == lane_at(Some(i as usize), l);
                    assert(rows[f + 1 + k] == lanes[k]);
                }
            }
            assert forall|k: int, m: int| 0 <= k < m < rows.len() implies stands_before(
                (#[trigger] rows[k]).at,
                (#[trigger] rows[m]).at,
            ) by {
                if m < f {
                    assert(rows[k] == front[k] && rows[m] == front[m]);
                } else if k < f {
                    assert(rows[k] == front[k]);
                    assert(standing(front[k].at).0 < i);
                    if m > f {
                        assert(is_lane_row(lanes[m - f - 1], t.automation_lanes, t.id, Some(i as usize)));
                    }
                } else {
                    assert(is_lane_row(lanes[m - f - 1], t.automation_lanes, t.id, Some(i as usize)));
                    if k > f {
                        assert(stands_before(lanes[k - f - 1].at, lanes[m - f - 1].at));
                    }
                }
            }
        }
    }
}

/// The rows of the launcher are those of the tracks that run, of their lanes and of the
/// lanes of the song, each once and in that order, and no others.
pub proof fn law_rows_are_those_of_what_runs(song: SongModel)
    requires
        song.tracks.len() <= usize::MAX,
        song.song_lanes.len() <= usize::MAX,
        forall|t: int| 0 <= t < song.tracks.len() ==> (#[trigger] song.tracks[t]).automation_lanes.len() <= usize::MAX,
    ensures
        ({
            let rows = launcher::rows_of(song);
            &&& forall|k: int| 0 <= k < rows.len() ==> is_row(song, #[trigger] rows[k])
            &&& forall|row: Row|
                #[trigger] is_row(song, row) ==> exists|k: int| 0 <= k < rows.len() && (#[trigger] rows[k]).at == row.at
            &&& forall|k: int, m: int|
                0 <= k < m < rows.len() ==> stands_before((#[trigger] rows[k]).at, (#[trigger] rows[m]).at)
        }),
{
    let a = launcher::track_rows(song.tracks, song.tracks.len());
    let b = launcher::lane_rows(song.song_lanes, MASTER_TRACK_ID, None);
    let rows = launcher::rows_of(song);
    lemma_track_rows(song, song.tracks.len());
    lemma_lane_rows(song.song_lanes, MASTER_TRACK_ID, None);
    assert forall|k: int| 0 <= k < rows.len() implies is_row(song, #[trigger] rows[k]) by {
        if k < a.len() {
            assert(rows[k] == a[k]);
        } else {
            assert(rows[k] == b[k - a.len()]);
            assert(is_lane_row(b[k - a.len()], song.song_lanes, MASTER_TRACK_ID, None));
        }
    }
    assert forall|row: Row| #[trigger] is_row(song, row) implies exists|k: int|
        0 <= k < rows.len() && (#[trigger] rows[k]).at == row.at by {
        match row.at {
            RowAt::Track(t) => {
                let k = choose|k: int| 0 <= k < a.len() && (#[trigger] a[k]).at == RowAt::Track(t);
                assert(rows[k] == a[k]);
            },
            RowAt::TrackLane(t, l) => {
                assert(has_row(song.tracks[t as int].automation_lanes[l as int]));
                let k = choose|k: int| 0 <= k < a.len() && (#[trigger] a[k]).at == RowAt::TrackLane(t, l);
                assert(rows[k] == a[k]);
            },
            RowAt::SongLane(l) => {
                assert(has_row(song.song_lanes[l as int]));
                let k = choose|k: int| 0 <= k < b.len() && (#[trigger] b[k]).at == lane_at(None, l as int);
                assert(rows[a.len() + k] == b[k]);
            },
        }
    }
    assert forall|k: int, m: int| 0 <= k < m < rows.len() implies stands_before(
        (#[trigger] rows[k]).at,
        (#[trigger] rows[m]).at,
    ) by {
        if m < a.len() {
            assert(rows[k] == a[k] && rows[m] == a[m]);
        } else {
            assert(rows[m] == b[m - a.len()]);
            assert(is_lane_row(b[m - a.len()], song.song_lanes, MASTER_TRACK_ID, None));
            if k < a.len() {
                assert(rows[k] == a[k]);
                assert(standing(a[k].at).0 < song.tracks.len());
            } else {
                assert(rows[k] == b[k - a.len()]);
            }
        }
    }
}

/// Whether the first cell of a scene in a row has a length.
pub open spec fn is_cell_length(song: SongModel, at: RowAt, scene: u32, length: Beat) -> bool {
    exists|i: int|
        0 <= i < launcher::row_scene_ids(song, at).len() && #[trigger] launcher::row_scene_ids(song, at)[i] == scene && (
        forall|k: int| 0 <= k < i ==> #[trigger] launcher::row_scene_ids(song, at)[k] != scene) && length
            == launcher::row_lengths(song, at)[i]
}

proof fn lemma_place_first(s: Seq<u32>, id: u32, from: int)
    requires
        0 <= from,
    ensures
        match ids::place_from(s, id, from) {
            Some(i) => from <= i < s.len() && s[i] == id && forall|k: int| from <= k < i ==> #[trigger] s[k] != id,
            None => forall|k: int| from <= k < s.len() ==> #[trigger] s[k] != id,
        },
    decreases s.len() - from,
{
    if from < s.len() && s[from] != id {
        lemma_place_first(s, id, from + 1);
    }
}

/// The longest cell of a scene is as long as one of its cells or has no length, and no
/// cell of the scene is longer, where of every row the first counts. There is none if and
/// only if no row has one.
pub proof fn law_no_cell_is_longer(song: SongModel, rows: Seq<Row>, scene: u32)
    ensures
        match launcher::longest(song, rows, scene) {
            Some(most) => {
                &&& forall|k: int, length: Beat|
                    0 <= k < rows.len() && #[trigger] is_cell_length(song, (#[trigger] rows[k]).at, scene, length)
                        ==> !most.lt(length)
                &&& !most.lt(Beat { bits: 0 })
                &&& most == Beat { bits: 0 } || exists|k: int|
                    0 <= k < rows.len() && #[trigger] is_cell_length(song, rows[k].at, scene, most)
                &&& exists|k: int, length: Beat|
                    0 <= k < rows.len() && #[trigger] is_cell_length(song, rows[k].at, scene, length)
            },
            None => forall|k: int, length: Beat|
                0 <= k < rows.len() ==> !#[trigger] is_cell_length(song, rows[k].at, scene, length),
        },
    decreases rows.len(),
{
    if rows.len() > 0 {
        let front = rows.drop_last();
        law_no_cell_is_longer(song, front, scene);
        let last = rows.len() - 1;
        let at = rows.last().at;
        let scenes = launcher::row_scene_ids(song, at);
        lemma_place_first(scenes, scene, 0);
        assert forall|k: int, length: Beat| 0 <= k < front.len() implies is_cell_length(
            song,
            #[trigger] rows[k].at,
            scene,
            length,
        ) == #[trigger] is_cell_length(song, front[k].at, scene, length) by {}
        match ids::place(scenes, scene) {
            Some(i) => {
                let length = launcher::row_lengths(song, at)[i];
                assert(is_cell_length(song, rows[last].at, scene, length));
                let most = launcher::longest(song, rows, scene)->0;
                if most != length {
                    let before = launcher::longest(song, front, scene);
                    if before is Some && most != (Beat { bits: 0 }) {
                        let k = choose|k: int|
                            0 <= k < front.len() && #[trigger] is_cell_length(song, front[k].at, scene, most);
                        assert(is_cell_length(song, rows[k].at, scene, most));
                    }
                }
                assert forall|k: int, other: Beat|
                    0 <= k < rows.len() && #[trigger] is_cell_length(
                        song,
                        (#[trigger] rows[k]).at,
                        scene,
                        other,
                    ) implies !most.lt(other) by {
                    if k < last {
                        assert(is_cell_length(song, front[k].at, scene, other));
                    } else {
                        let j = choose|j: int|
                            0 <= j < scenes.len() && #[trigger] scenes[j] == scene && (forall|k: int|
                                0 <= k < j ==> #[trigger] scenes[k] != scene) && other == launcher::row_lengths(
                                song,
                                at,
                            )[j];
                        assert(j == i);
                    }
                }
            },
            None => {
                assert forall|length: Beat| !#[trigger] is_cell_length(song, rows[last].at, scene, length) by {}
                match launcher::longest(song, front, scene) {
                    Some(most) => {
                        if most != (Beat { bits: 0 }) {
                            let k = choose|k: int|
                                0 <= k < front.len() && #[trigger] is_cell_length(song, front[k].at, scene, most);
                            assert(is_cell_length(song, rows[k].at, scene, most));
                        }
                        let (k, length) = choose|k: int, length: Beat|
                            0 <= k < front.len() && #[trigger] is_cell_length(song, front[k].at, scene, length);
                        assert(is_cell_length(song, rows[k].at, scene, length));
                        assert forall|k: int, other: Beat|
                            0 <= k < rows.len() && #[trigger] is_cell_length(
                                song,
                                (#[trigger] rows[k]).at,
                                scene,
                                other,
                            ) implies !most.lt(other) by {
                            assert(k < last);
                            assert(is_cell_length(song, front[k].at, scene, other));
                        }
                    },
                    None => {
                        assert forall|k: int, length: Beat| 0 <= k < rows.len() implies !#[trigger] is_cell_length(
                            song,
                            rows[k].at,
                            scene,
                            length,
                        ) by {
                            if k < last {
                                assert(!is_cell_length(song, front[k].at, scene, length));
                            }
                        }
                    },
                }
            },
        }
    }
}

// ---------------------------------------------------------------------------
// Devices
// ---------------------------------------------------------------------------

/// Whether a device is found inside another one or is it: it is one of the chains of a
/// rack, at whatever depth.
pub open spec fn is_inside(d: DeviceModel, whole: DeviceModel) -> bool
    decreases whole,
{
    d == whole || match whole {
        DeviceModel::Parallel { id: _, chains } => exists|c: int, i: int|
            #![trigger chains[c].devices[i]]
            0 <= c < chains.len() && 0 <= i < chains[c].devices.len() && is_inside_of(d, chains, c, i),
        _ => false,
    }
}

/// Whether a device is found inside the one at a place in chains.
pub open spec fn is_inside_of(d: DeviceModel, chains: Seq<ChainModel>, c: int, i: int) -> bool
    decreases chains,
{
    if 0 <= c < chains.len() && 0 <= i < chains[c].devices.len() {
        proof {
            assert(decreases_to!(chains => chains[c]));
            assert(decreases_to!(chains[c].devices => chains[c].devices[i]));
        }
        is_inside(d, chains[c].devices[i])
    } else {
        false
    }
}

proof fn lemma_device_found(d: DeviceModel, whole: DeviceModel)
    requires
        is_inside(d, whole),
    ensures
        lookup::device_find(whole, d.id()) is Some,
    decreases whole,
{
    if whole.id() != d.id() {
        if let DeviceModel::Parallel { id: _, chains } = whole {
            let (c, i) = choose|c: int, i: int|
                #![trigger chains[c].devices[i]]
                0 <= c < chains.len() && 0 <= i < chains[c].devices.len() && is_inside_of(d, chains, c, i);
            assert(is_inside_of(d, chains, c, i));
            assert(decreases_to!(whole => chains));
            lemma_chains_found(d, chains, c, i);
        }
    }
}

proof fn lemma_chains_found(d: DeviceModel, chains: Seq<ChainModel>, c: int, i: int)
    requires
        0 <= c < chains.len(),
        0 <= i < chains[c].devices.len(),
        is_inside(d, chains[c].devices[i]),
    ensures
        lookup::chains_find(chains, d.id()) is Some,
    decreases chains,
{
    if c == 0 {
        assert(decreases_to!(chains => chains[0]));
        lemma_list_found(d, chains[0].devices, i);
    } else {
        assert(decreases_to!(chains => chains.drop_first()));
        lemma_chains_found(d, chains.drop_first(), c - 1, i);
    }
}

proof fn lemma_list_found(d: DeviceModel, devices: Seq<DeviceModel>, i: int)
    requires
        0 <= i < devices.len(),
        is_inside(d, devices[i]),
    ensures
        lookup::list_find(devices, d.id()) is Some,
    decreases devices,
{
    if i == 0 {
        assert(decreases_to!(devices => devices[0]));
        lemma_device_found(d, devices[0]);
    } else {
        assert(decreases_to!(devices => devices.drop_first()));
        lemma_list_found(d, devices.drop_first(), i - 1);
    }
}

proof fn lemma_found_inside(whole: DeviceModel, id: u64)
    ensures
        lookup::device_find(whole, id) matches Some(d) ==> d.id() == id && is_inside(d, whole),
    decreases whole,
{
    if whole.id() != id {
        if let DeviceModel::Parallel { id: _, chains } = whole {
            assert(decreases_to!(whole => chains));
            lemma_found_in_chains(chains, id);
            if let Some(d) = lookup::chains_find(chains, id) {
                let (c, i) = choose|c: int, i: int|
                    0 <= c < chains.len() && 0 <= i < chains[c].devices.len() && #[trigger] is_inside_of(d, chains, c, i);
                assert(is_inside(d, chains[c].devices[i]));
                assert(is_inside(d, whole));
            }
        }
    }
}

proof fn lemma_found_in_chains(chains: Seq<ChainModel>, id: u64)
    ensures
        lookup::chains_find(chains, id) matches Some(d) ==> d.id() == id && exists|c: int, i: int|
            0 <= c < chains.len() && 0 <= i < chains[c].devices.len() && #[trigger] is_inside_of(d, chains, c, i),
    decreases chains,
{
    if chains.len() > 0 {
        assert(decreases_to!(chains => chains[0]));
        assert(decreases_to!(chains => chains.drop_first()));
        lemma_found_in_list(chains[0].devices, id);
        match lookup::list_find(chains[0].devices, id) {
            Some(d) => {
                let i = choose|i: int| 0 <= i < chains[0].devices.len() && is_inside(d, #[trigger] chains[0].devices[i]);
                assert(is_inside_of(d, chains, 0, i));
            },
            None => {
                let rest = chains.drop_first();
                lemma_found_in_chains(rest, id);
                if let Some(d) = lookup::chains_find(rest, id) {
                    let (c, i) = choose|c: int, i: int|
                        0 <= c < rest.len() && 0 <= i < rest[c].devices.len() && #[trigger] is_inside_of(d, rest, c, i);
                    assert(rest[c] == chains[c + 1]);
                    assert(is_inside_of(d, chains, c + 1, i));
                }
            },
        }
    }
}

proof fn lemma_found_in_list(devices: Seq<DeviceModel>, id: u64)
    ensures
        lookup::list_find(devices, id) matches Some(d) ==> d.id() == id && exists|i: int|
            0 <= i < devices.len() && is_inside(d, #[trigger] devices[i]),
    decreases devices,
{
    if devices.len() > 0 {
        assert(decreases_to!(devices => devices[0]));
        assert(decreases_to!(devices => devices.drop_first()));
        lemma_found_inside(devices[0], id);
        match lookup::device_find(devices[0], id) {
            Some(d) => {
                assert(is_inside(d, devices[0]));
            },
            None => {
                let rest = devices.drop_first();
                lemma_found_in_list(rest, id);
                if let Some(d) = lookup::list_find(rest, id) {
                    let i = choose|i: int| 0 <= i < rest.len() && is_inside(d, #[trigger] rest[i]);
                    assert(rest[i] == devices[i + 1]);
                }
            },
        }
    }
}

/// Whether a song has a device: in a chain of a track or in that of the master, at
/// whatever depth.
pub open spec fn has_device(song: SongModel, d: DeviceModel) -> bool {
    ||| exists|t: int, i: int|
        0 <= t < song.tracks.len() && 0 <= i < song.tracks[t].devices.len() && is_inside(
            d,
            #[trigger] song.tracks[t].devices[i],
        )
    ||| exists|i: int| 0 <= i < song.master_fx_chain.len() && is_inside(d, #[trigger] song.master_fx_chain[i])
}

/// A device is found by its id wherever in a song it is, and what is found is in the song
/// and has the id.
pub proof fn law_devices_are_found_wherever_they_are(song: SongModel, id: u64)
    ensures
        song.device(id) matches Some(d) ==> d.id() == id && has_device(song, d),
        forall|d: DeviceModel| #[trigger] has_device(song, d) && d.id() == id ==> song.device(id) is Some,
{
    lemma_tracks_find(song.tracks, id, 0);
    lemma_found_in_list(song.master_fx_chain, id);
    if let Some(found) = lookup::tracks_find(song.tracks, id, 0) {
        lemma_found_in_list(song.tracks[found.0].devices, id);
        let devices = song.tracks[found.0].devices;
        let i = choose|i: int| 0 <= i < devices.len() && is_inside(found.1, #[trigger] devices[i]);
        assert(is_inside(found.1, song.tracks[found.0].devices[i]));
    }
    assert forall|d: DeviceModel| #[trigger] has_device(song, d) && d.id() == id implies song.device(id) is Some by {
        if exists|t: int, i: int|
            0 <= t < song.tracks.len() && 0 <= i < song.tracks[t].devices.len() && is_inside(
                d,
                #[trigger] song.tracks[t].devices[i],
            ) {
            let (t, i) = choose|t: int, i: int|
                0 <= t < song.tracks.len() && 0 <= i < song.tracks[t].devices.len() && is_inside(
                    d,
                    #[trigger] song.tracks[t].devices[i],
                );
            lemma_list_found(d, song.tracks[t].devices, i);
        } else {
            let i = choose|i: int| 0 <= i < song.master_fx_chain.len() && is_inside(d, #[trigger] song.master_fx_chain[i]);
            lemma_list_found(d, song.master_fx_chain, i);
        }
    }
}

proof fn lemma_tracks_find(tracks: Seq<TrackModel>, id: u64, from: int)
    requires
        0 <= from,
    ensures
        match lookup::tracks_find(tracks, id, from) {
            Some(found) => from <= found.0 < tracks.len() && lookup::list_find(tracks[found.0].devices, id) == Some(
                found.1,
            ) && forall|k: int| from <= k < found.0 ==> lookup::list_find((#[trigger] tracks[k]).devices, id) is None,
            None => forall|k: int|
                from <= k < tracks.len() ==> lookup::list_find((#[trigger] tracks[k]).devices, id) is None,
        },
    decreases tracks.len() - from,
{
    if from < tracks.len() && lookup::list_find(tracks[from].devices, id) is None {
        lemma_tracks_find(tracks, id, from + 1);
    }
}

/// The owner of a device is the first track that has a device with its id, or the master
/// if none has and it has one.
pub proof fn law_the_owner_has_the_device(song: SongModel, id: u64)
    ensures
        song.device_owner(id) is Some == song.device(id) is Some,
        song.device_owner(id) matches Some(owner) ==> (exists|t: int, i: int, d: DeviceModel|
            0 <= t < song.tracks.len() && 0 <= i < song.tracks[t].devices.len() && song.tracks[t].id == owner && d.id()
                == id && #[trigger] is_inside(d, #[trigger] song.tracks[t].devices[i])) || owner == MASTER_TRACK_ID && (
        exists|i: int, d: DeviceModel|
            0 <= i < song.master_fx_chain.len() && d.id() == id && #[trigger] is_inside(
                d,
                #[trigger] song.master_fx_chain[i],
            )),
{
    lemma_tracks_find(song.tracks, id, 0);
    lemma_found_in_list(song.master_fx_chain, id);
    match lookup::tracks_find(song.tracks, id, 0) {
        Some(found) => {
            let devices = song.tracks[found.0].devices;
            lemma_found_in_list(devices, id);
            let i = choose|i: int| 0 <= i < devices.len() && is_inside(found.1, #[trigger] devices[i]);
            assert(is_inside(found.1, song.tracks[found.0].devices[i]));
        },
        None => {
            if let Some(d) = lookup::list_find(song.master_fx_chain, id) {
                let i = choose|i: int| 0 <= i < song.master_fx_chain.len() && is_inside(d, #[trigger] song.master_fx_chain[i]);
                assert(is_inside(d, song.master_fx_chain[i]));
            }
        },
    }
}

// ---------------------------------------------------------------------------
// Parameters
// ---------------------------------------------------------------------------

/// Whether a target belongs to a send, a chain, a rack, a plugin or a native device with
/// an id.
pub open spec fn belongs_to(target: AutomationTarget, subject: ParamSubject) -> bool {
    match subject {
        ParamSubject::Send(id) => target == AutomationTarget::TrackBuiltin(TrackBuiltinParam::SendGain { send_id: id }),
        ParamSubject::Chain(id) => target == AutomationTarget::TrackBuiltin(
            TrackBuiltinParam::ChainGain { chain_id: id },
        ) || target == AutomationTarget::TrackBuiltin(TrackBuiltinParam::ChainPan { chain_id: id }),
        ParamSubject::Parallel(id) => target == AutomationTarget::TrackBuiltin(
            TrackBuiltinParam::ParallelOutGain { parallel_id: id },
        ) || target == AutomationTarget::TrackBuiltin(TrackBuiltinParam::ParallelSelect { parallel_id: id }) || exists|index: u32|
            target == AutomationTarget::TrackBuiltin(#[trigger] split_freq(id, index)),
        ParamSubject::Track => target == AutomationTarget::TrackBuiltin(TrackBuiltinParam::Volume) || target
            == AutomationTarget::TrackBuiltin(TrackBuiltinParam::Pan) || target == AutomationTarget::TrackBuiltin(
            TrackBuiltinParam::Mute,
        ),
        ParamSubject::Plugin(id) => target is PluginParam && target->PluginParam_device_id == id,
        ParamSubject::Native(id) => target is NativeParam && target->NativeParam_device_id == id,
        ParamSubject::MasterLimiter => target is MasterLimiter,
        ParamSubject::Song => target is SongTempo || target is SongTimeSigNumerator || target is SongTranspose,
        ParamSubject::ModSource(id) => target is ModSourceParam && target->source_id == id,
        ParamSubject::ModRouting(id) => target is ModRoutingDepth && target->routing_id == id,
        ParamSubject::Visual => target is ImageBuiltin || target is TextBuiltin || target is GroupTransform,
    }
}

/// The frequency at which a rack splits.
pub open spec fn split_freq(parallel_id: u64, index: u32) -> TrackBuiltinParam {
    TrackBuiltinParam::ParallelSplitFreq { parallel_id, index }
}

/// A target has one subject, the one that it belongs to.
pub proof fn law_targets_belong_to_their_subjects(target: AutomationTarget, subject: ParamSubject)
    ensures
        params::subject_of(target) == subject <==> belongs_to(target, subject),
{
    if let AutomationTarget::TrackBuiltin(TrackBuiltinParam::ParallelSplitFreq { parallel_id, index }) = target {
        assert(target == AutomationTarget::TrackBuiltin(split_freq(parallel_id, index)));
    }
}

/// The lanes of a subject are all those whose targets belong to it, in order.
pub proof fn law_lanes_of_a_subject(lanes: Seq<LaneModel>, subject: ParamSubject)
    ensures
        ({
            let at = params::lanes_for(lanes, subject);
            &&& forall|k: int, l: int| 0 <= k < l < at.len() ==> #[trigger] at[k] < #[trigger] at[l]
            &&& forall|i: int| #[trigger] at.contains(i) <==> 0 <= i < lanes.len() && belongs_to(lanes[i].target, subject)
        }),
{
    let at = params::lanes_for(lanes, subject);
    positions::lemma_places(params::lane_keys(lanes), params::subject_key(subject));
    assert forall|i: int| #[trigger] at.contains(i) <==> 0 <= i < lanes.len() && belongs_to(lanes[i].target, subject) by {
        if 0 <= i < lanes.len() {
            params::law_subjects_have_their_own_keys(params::subject_of(lanes[i].target), subject);
            law_targets_belong_to_their_subjects(lanes[i].target, subject);
        }
    }
}

/// The routings to a target are all that have it, in order, and the targets of routings
/// are all that one has, each once.
pub proof fn law_routings_of_a_target(routings: Seq<ModRouting>, target: AutomationTarget)
    ensures
        ({
            let at = params::routings_to(routings, target);
            &&& forall|k: int, l: int| 0 <= k < l < at.len() ==> #[trigger] at[k] < #[trigger] at[l]
            &&& forall|k: int| 0 <= k < at.len() ==> 0 <= #[trigger] at[k] < routings.len()
            &&& forall|i: int| #[trigger] at.contains(i) <==> 0 <= i < routings.len() && routings[i].target == target
            &&& params::targets(routings).contains(target) <==> exists|i: int|
                0 <= i < routings.len() && (#[trigger] routings[i]).target == target
            &&& params::targets(routings).no_duplicates()
        }),
    decreases routings.len(),
{
    if routings.len() > 0 {
        let front = routings.drop_last();
        let n = routings.len() - 1;
        law_routings_of_a_target(front, target);
        law_routings_of_a_target(front, routings.last().target);
        let before = params::routings_to(front, target);
        let at = params::routings_to(routings, target);
        assert forall|i: int| #[trigger] at.contains(i) <==> 0 <= i < routings.len() && routings[i].target == target by {
            if at.contains(i) {
                let k = choose|k: int| 0 <= k < at.len() && at[k] == i;
                if k < before.len() {
                    assert(before[k] == i);
                    assert(before.contains(i));
                    assert(front[i] == routings[i]);
                }
            }
            if 0 <= i < routings.len() && routings[i].target == target {
                if i < n {
                    assert(front[i] == routings[i]);
                    assert(before.contains(i));
                    let k = choose|k: int| 0 <= k < before.len() && before[k] == i;
                    assert(at[k] == i);
                } else {
                    assert(at[before.len() as int] == i);
                }
            }
        }
        let a = params::targets(front);
        let b = params::targets(routings);
        assert(a.contains(routings.last().target) || b[a.len() as int] == routings.last().target);
        if b.contains(target) {
            let k = choose|k: int| 0 <= k < b.len() && b[k] == target;
            if k < a.len() {
                assert(a[k] == target);
                assert(a.contains(target));
                let i = choose|i: int| 0 <= i < front.len() && (#[trigger] front[i]).target == target;
                assert(routings[i].target == target);
            } else {
                assert(routings[n].target == target);
            }
        }
        if exists|i: int| 0 <= i < routings.len() && (#[trigger] routings[i]).target == target {
            let i = choose|i: int| 0 <= i < routings.len() && (#[trigger] routings[i]).target == target;
            if i < n {
                assert(front[i].target == target);
                let k = choose|k: int| 0 <= k < a.len() && a[k] == target;
                assert(b[k] == target);
            } else if a.contains(target) {
                assert(b == a);
            } else {
                assert(b[a.len() as int] == target);
            }
        }
    }
}

/// The lane that is found for a target is the first one that is enabled and has it.
pub proof fn law_the_first_enabled_lane_counts(lanes: Seq<LaneModel>, target: AutomationTarget)
    ensures
        match params::enabled_from(lanes, target, 0) {
            Some(i) => 0 <= i < lanes.len() && lanes[i].enabled && lanes[i].target == target && forall|k: int|
                0 <= k < i ==> !(#[trigger] lanes[k]).enabled || lanes[k].target != target,
            None => forall|k: int|
                0 <= k < lanes.len() ==> !(#[trigger] lanes[k]).enabled || lanes[k].target != target,
        },
{
    lemma_enabled_from(lanes, target, 0);
}

proof fn lemma_enabled_from(lanes: Seq<LaneModel>, target: AutomationTarget, from: int)
    requires
        0 <= from,
    ensures
        match params::enabled_from(lanes, target, from) {
            Some(i) => from <= i < lanes.len() && lanes[i].enabled && lanes[i].target == target && forall|k: int|
                from <= k < i ==> !(#[trigger] lanes[k]).enabled || lanes[k].target != target,
            None => forall|k: int|
                from <= k < lanes.len() ==> !(#[trigger] lanes[k]).enabled || lanes[k].target != target,
        },
    decreases lanes.len() - from,
{
    if from < lanes.len() && !(lanes[from].enabled && lanes[from].target == target) {
        lemma_enabled_from(lanes, target, from + 1);
    }
}

} // verus!
