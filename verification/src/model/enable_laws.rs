//! What holds of tracks that are enabled and disabled.

use super::automation::LaneModel;
use super::lookup;
use super::track_enable;
use super::track::TrackModel;
use super::RowPlayback;
use super::MASTER_TRACK_ID;
use vstd::prelude::*;

verus! {

/// Whether the track at a place has its id before any other does.
pub open spec fn is_first_with_its_id(tracks: Seq<TrackModel>, i: int) -> bool {
    &&& 0 <= i < tracks.len()
    &&& forall|k: int| 0 <= k < i ==> (#[trigger] tracks[k]).id != tracks[i].id
}

/// Whether a track is in the group that another one is.
pub open spec fn is_in_group(tracks: Seq<TrackModel>, i: int, g: int) -> bool {
    &&& is_first_with_its_id(tracks, g)
    &&& tracks[i].parent_group_id == Some(tracks[g].id)
}

proof fn lemma_place_is(tracks: Seq<TrackModel>, i: int)
    requires
        is_first_with_its_id(tracks, i),
    ensures
        lookup::track_place(tracks, tracks[i].id) == Some(i),
{
    lookup::lemma_track_place(tracks, tracks[i].id);
}

/// A track that is in no group that exists is effectively enabled if and only if it is
/// enabled; one in a group, if and only if it is enabled and the group effectively is.
pub proof fn law_a_track_runs_with_its_group(tracks: Seq<TrackModel>, i: int)
    requires
        is_first_with_its_id(tracks, i),
        tracks[i].id != MASTER_TRACK_ID,
    ensures
        forall|g: int|
            #[trigger] is_in_group(tracks, i, g) && tracks[g].id != MASTER_TRACK_ID
                ==> track_enable::effectively_enabled(tracks, tracks[i].id) == (tracks[i].enabled
                && track_enable::effectively_enabled(tracks, tracks[g].id)),
        (forall|g: int| !#[trigger] is_in_group(tracks, i, g)) ==> track_enable::effectively_enabled(
            tracks,
            tracks[i].id,
        ) == tracks[i].enabled,
        track_enable::runs(tracks, i) == track_enable::effectively_enabled(tracks, tracks[i].id),
{
    lemma_place_is(tracks, i);
    let id = tracks[i].id;
    track_enable::law_enabled_with_every_group(tracks, id);
    assert forall|g: int|
        #[trigger] is_in_group(tracks, i, g) && tracks[g].id != MASTER_TRACK_ID implies track_enable::effectively_enabled(
        tracks,
        id,
    ) == (tracks[i].enabled && track_enable::effectively_enabled(tracks, tracks[g].id)) by {
        lemma_place_is(tracks, g);
        track_enable::law_enabled_with_every_group(tracks, tracks[g].id);
        assert(track_enable::group_above(tracks, i, 0) == Some(i));
        reveal_with_fuel(track_enable::group_above, 2);
        assert(track_enable::group_above(tracks, i, 1) == Some(g));
        assert forall|k: nat| #[trigger] track_enable::group_above(tracks, i, k + 1) == track_enable::group_above(
            tracks,
            g,
            k,
        ) by {
            track_enable::lemma_group_above_chain(tracks, i, 1, k);
            assert(1 + k == k + 1);
        }
        if track_enable::effectively_enabled(tracks, id) {
            assert(tracks[i].enabled);
            assert forall|k: nat| (#[trigger] track_enable::group_above(tracks, g, k)) is Some implies tracks[track_enable::group_above(
                tracks,
                g,
                k,
            )->0].enabled by {
                assert(track_enable::group_above(tracks, i, k + 1) == track_enable::group_above(tracks, g, k));
            }
        }
        if tracks[i].enabled && track_enable::effectively_enabled(tracks, tracks[g].id) {
            assert forall|k: nat| (#[trigger] track_enable::group_above(tracks, i, k)) is Some implies tracks[track_enable::group_above(
                tracks,
                i,
                k,
            )->0].enabled by {
                if k > 0 {
                    let m = (k - 1) as nat;
                    assert(track_enable::group_above(tracks, i, m + 1) == track_enable::group_above(tracks, g, m));
                }
            }
        }
    }
    if forall|g: int| !#[trigger] is_in_group(tracks, i, g) {
        reveal_with_fuel(track_enable::group_above, 2);
        assert(track_enable::group_above(tracks, i, 0) == Some(i));
        assert forall|k: nat| k > 0 implies (#[trigger] track_enable::group_above(tracks, i, k)) is None by {
            lemma_no_group(tracks, i, k);
        }
    }
}

proof fn lemma_no_group(tracks: Seq<TrackModel>, i: int, k: nat)
    requires
        0 <= i < tracks.len(),
        forall|g: int| !#[trigger] is_in_group(tracks, i, g),
        k > 0,
    ensures
        track_enable::group_above(tracks, i, k) is None,
    decreases k,
{
    if k == 1 {
        reveal_with_fuel(track_enable::group_above, 2);
        assert(track_enable::group_above(tracks, i, 0) == Some(i));
        if let Some(parent) = tracks[i].parent_group_id {
            lookup::lemma_track_place(tracks, parent);
            if let Some(g) = lookup::track_place(tracks, parent) {
                assert(is_in_group(tracks, i, g));
            }
        }
    } else {
        lemma_no_group(tracks, i, (k - 1) as nat);
    }
}

/// Whether a row does not play, and is as it was if it did not.
pub open spec fn is_silent(now: RowPlayback, was: RowPlayback) -> bool {
    &&& now !is Launcher
    &&& was !is Launcher ==> now == was
    &&& was is Launcher ==> now is LauncherStopped
}

/// Whether the rows of a track and of its lanes do not play, and it is as it was
/// otherwise.
pub open spec fn has_silent_rows(now: TrackModel, was: TrackModel) -> bool {
    &&& is_silent(now.launcher, was.launcher)
    &&& now.automation_lanes.len() == was.automation_lanes.len()
    &&& forall|l: int|
        0 <= l < was.automation_lanes.len() ==> {
            let lane = #[trigger] now.automation_lanes[l];
            &&& is_silent(lane.launcher, was.automation_lanes[l].launcher)
            &&& lane == (LaneModel { launcher: lane.launcher, ..was.automation_lanes[l] })
        }
    &&& now == (TrackModel {
        launcher: now.launcher,
        automation_lanes: now.automation_lanes,
        armed: now.armed,
        ..was
    })
}

/// Settling disarms every track that is not effectively enabled and stops its rows, and
/// leaves every other track as it is. Stopping rows does not disarm.
pub proof fn law_what_does_not_run_is_settled(tracks: Seq<TrackModel>, i: int)
    requires
        is_first_with_its_id(tracks, i),
        tracks[i].id != MASTER_TRACK_ID,
    ensures
        ({
            let now = track_enable::settled(tracks);
            let stopped = track_enable::rows_stopped(tracks);
            &&& now.len() == tracks.len()
            &&& stopped.len() == tracks.len()
            &&& if track_enable::effectively_enabled(tracks, tracks[i].id) {
                now[i] == tracks[i] && stopped[i] == tracks[i]
            } else {
                &&& has_silent_rows(now[i], tracks[i])
                &&& !now[i].armed
                &&& has_silent_rows(stopped[i], tracks[i])
                &&& stopped[i].armed == tracks[i].armed
            }
        }),
{
    law_a_track_runs_with_its_group(tracks, i);
}

/// Setting flags sets those of the tracks that are named, and no others; they change if
/// and only if one of them was the other way.
pub proof fn law_flags_are_set_as_named(tracks: Seq<TrackModel>, ids: Seq<u32>, enabled: bool)
    ensures
        ({
            let now = track_enable::with_enabled(tracks, ids, enabled);
            &&& now.len() == tracks.len()
            &&& forall|i: int|
                0 <= i < tracks.len() ==> (#[trigger] now[i]) == (TrackModel { enabled: now[i].enabled, ..tracks[i] })
            &&& forall|i: int, k: int|
                0 <= i < tracks.len() && 0 <= k < ids.len() && #[trigger] ids[k] == (#[trigger] tracks[i]).id ==> now[i].enabled
                    == enabled
            &&& forall|i: int|
                0 <= i < tracks.len() && (forall|k: int| 0 <= k < ids.len() ==> #[trigger] ids[k] != tracks[i].id)
                    ==> #[trigger] now[i] == tracks[i]
            &&& track_enable::flag_changes(tracks, ids, enabled) <==> now != tracks
        }),
{
    let now = track_enable::with_enabled(tracks, ids, enabled);
    assert forall|i: int, k: int|
        0 <= i < tracks.len() && 0 <= k < ids.len() && #[trigger] ids[k] == (#[trigger] tracks[i]).id implies now[i].enabled
        == enabled by {
        assert(ids.contains(tracks[i].id));
    }
    if track_enable::flag_changes(tracks, ids, enabled) {
        let i = choose|i: int|
            0 <= i < tracks.len() && ids.contains((#[trigger] tracks[i]).id) && tracks[i].enabled != enabled;
        assert(now[i] != tracks[i]);
    } else {
        assert forall|i: int| 0 <= i < tracks.len() implies #[trigger] now[i] == tracks[i] by {
            if ids.contains(tracks[i].id) {
                assert(tracks[i].enabled == enabled);
            }
        }
        assert(now =~= tracks);
    }
}

} // verus!
