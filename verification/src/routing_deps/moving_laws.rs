//! What holds when tracks are moved.

use super::moving;
use crate::model::lookup;
use crate::model::time_laws;
use crate::model::track_enable;
use crate::model::{SongModel, TrackModel};
use vstd::prelude::*;

verus! {

/// Whether no two tracks have the same id.
pub open spec fn have_own_ids(tracks: Seq<TrackModel>) -> bool {
    forall|i: int, j: int| 0 <= i < j < tracks.len() ==> (#[trigger] tracks[i]).id != (#[trigger] tracks[j]).id
}

/// Whether a track has an id.
pub open spec fn has_id(tracks: Seq<TrackModel>, id: u32) -> bool {
    exists|i: int| 0 <= i < tracks.len() && (#[trigger] tracks[i]).id == id
}

/// Whether an id is named before another one is.
pub open spec fn is_named_before(ids: Seq<u32>, x: u32, y: u32) -> bool {
    exists|a: int| 0 <= a < ids.len() && #[trigger] ids[a] == x && forall|b: int| 0 <= b <= a ==> #[trigger] ids[b] != y
}

/// Whether a track is another one that was moved or not: if it was, it is in the group,
/// and otherwise in the group that it was in. What it plays may be stopped.
pub open spec fn is_track_moved(now: TrackModel, was: TrackModel, ids: Seq<u32>, parent: Option<u32>) -> bool {
    now == TrackModel {
        parent_group_id: if ids.contains(was.id) {
            parent
        } else {
            was.parent_group_id
        },
        armed: now.armed,
        launcher: now.launcher,
        automation_lanes: now.automation_lanes,
        ..was
    }
}

/// Whether what was taken stands in the order in which it is first named. `first` is
/// where.
spec fn is_taken(gone: Seq<TrackModel>, tracks: Seq<TrackModel>, ids: Seq<u32>, first: Seq<int>, n: int) -> bool {
    &&& first.len() == gone.len()
    &&& time_laws::are_ordered(first, n as nat)
    &&& forall|j: int|
        0 <= j < gone.len() ==> {
            let a = #[trigger] first[j];
            &&& ids[a] == gone[j].id
            &&& forall|b: int| 0 <= b < a ==> #[trigger] ids[b] != gone[j].id
        }
    &&& forall|j: int| 0 <= j < gone.len() ==> tracks.contains(#[trigger] gone[j])
    &&& forall|i: int|
        0 <= i < tracks.len() && ids.take(n).contains((#[trigger] tracks[i]).id) ==> gone.contains(tracks[i])
}

proof fn lemma_take_contains(ids: Seq<u32>, n: int, id: u32)
    requires
        0 <= n < ids.len(),
    ensures
        ids.take(n + 1).contains(id) <==> ids.take(n).contains(id) || ids[n] == id,
{
    if ids.take(n).contains(id) {
        let a = choose|a: int| 0 <= a < n && ids.take(n)[a] == id;
        assert(ids.take(n + 1)[a] == id);
    }
    if ids[n] == id {
        assert(ids.take(n + 1)[n] == id);
    }
    if ids.take(n + 1).contains(id) && ids[n] != id {
        let more = ids.take(n + 1);
        let a = choose|a: int| 0 <= a < more.len() && more[a] == id;
        assert(ids.take(n)[a] == id);
    }
}

proof fn lemma_taken(tracks: Seq<TrackModel>, ids: Seq<u32>, n: int) -> (found: (Seq<int>, Seq<int>))
    requires
        have_own_ids(tracks),
        0 <= n <= ids.len(),
    ensures
        time_laws::is_left(
            moving::taken(tracks, ids, n as nat).0,
            tracks,
            |t: TrackModel| ids.take(n).contains(t.id),
            found.0,
        ),
        is_taken(moving::taken(tracks, ids, n as nat).1, tracks, ids, found.1, n),
    decreases n,
{
    let (rest, gone) = moving::taken(tracks, ids, n as nat);
    if n == 0 {
        let at = Seq::new(tracks.len(), |k: int| k);
        assert forall|i: int| 0 <= i < tracks.len() implies (#[trigger] at.contains(i) <==> !ids.take(0).contains(
            tracks[i].id,
        )) by {
            assert(at[i] == i);
        }
        (at, Seq::empty())
    } else {
        let m = n - 1;
        let (at, first) = lemma_taken(tracks, ids, m);
        let (rest0, gone0) = moving::taken(tracks, ids, m as nat);
        let id = ids[m];
        lookup::lemma_track_place(rest0, id);
        assert forall|i: int| 0 <= i < tracks.len() implies (ids.take(n).contains((#[trigger] tracks[i]).id)
            <==> ids.take(m).contains(tracks[i].id) || tracks[i].id == id) by {
            lemma_take_contains(ids, m, tracks[i].id);
        }
        assert forall|k: int| 0 <= k < first.len() implies 0 <= #[trigger] first[k] < n by {
            assert(first[k] < m);
        }
        match lookup::track_place(rest0, id) {
            None => {
                assert forall|i: int| 0 <= i < tracks.len() && tracks[i].id == id implies ids.take(m).contains(id) by {
                    if !ids.take(m).contains(id) {
                        assert(at.contains(i));
                        let k = choose|k: int| 0 <= k < at.len() && at[k] == i;
                        assert(rest0[k].id == id);
                    }
                }
                assert forall|i: int| 0 <= i < tracks.len() implies (#[trigger] at.contains(i) <==> !ids.take(
                    n,
                ).contains(tracks[i].id)) by {
                    assert(ids.take(n).contains(tracks[i].id) <==> ids.take(m).contains(tracks[i].id) || tracks[i].id
                        == id);
                }
                (at, first)
            },
            Some(p) => {
                let now_at = at.remove(p);
                let now_first = first.push(m);
                let q = at[p];
                assert(rest0[p] == tracks[q]);
                assert(at.contains(q));
                assert(!ids.take(m).contains(id));
                assert forall|i: int| 0 <= i < tracks.len() implies (#[trigger] now_at.contains(i) <==> !ids.take(
                    n,
                ).contains(tracks[i].id)) by {
                    assert(ids.take(n).contains(tracks[i].id) <==> ids.take(m).contains(tracks[i].id) || tracks[i].id
                        == id);
                    assert(at.contains(i) <==> !ids.take(m).contains(tracks[i].id));
                    if now_at.contains(i) {
                        let k = choose|k: int| 0 <= k < now_at.len() && now_at[k] == i;
                        let old_k = if k < p {
                            k
                        } else {
                            k + 1
                        };
                        assert(at[old_k] == i);
                        assert(i != q);
                        assert(tracks[i].id != id);
                    }
                    if at.contains(i) && tracks[i].id != id {
                        let k = choose|k: int| 0 <= k < at.len() && at[k] == i;
                        assert(k != p);
                        let new_k = if k < p {
                            k
                        } else {
                            k - 1
                        };
                        assert(now_at[new_k] == i);
                    }
                }
                assert forall|b: int| 0 <= b < m implies #[trigger] ids[b] != id by {
                    assert(ids.take(m)[b] == ids[b]);
                }
                assert forall|j: int| 0 <= j < gone.len() implies tracks.contains(#[trigger] gone[j]) by {
                    if j < gone0.len() {
                        assert(gone[j] == gone0[j]);
                    } else {
                        assert(gone[j] == tracks[q]);
                    }
                }
                assert forall|i: int| 0 <= i < tracks.len() && ids.take(n).contains(
                    (#[trigger] tracks[i]).id,
                ) implies gone.contains(tracks[i]) by {
                    if tracks[i].id == id {
                        assert(i == q);
                        assert(gone[gone0.len() as int] == tracks[i]);
                    } else {
                        assert(gone0.contains(tracks[i]));
                        let j = choose|j: int| 0 <= j < gone0.len() && gone0[j] == tracks[i];
                        assert(gone[j] == tracks[i]);
                    }
                }
                assert forall|j: int| 0 <= j < gone.len() implies ({
                    let a = #[trigger] now_first[j];
                    &&& ids[a] == gone[j].id
                    &&& forall|b: int| 0 <= b < a ==> #[trigger] ids[b] != gone[j].id
                }) by {
                    if j < gone0.len() {
                        assert(first[j] == now_first[j]);
                        assert(gone[j] == gone0[j]);
                    }
                }
                (now_at, now_first)
            },
        }
    }
}

/// Where in the tracks after a move something stands: before the place it does not move,
/// at it stands what was taken, and behind it the rest.
spec fn stands_like(now: Seq<TrackModel>, rest: Seq<TrackModel>, gone: Seq<TrackModel>, p: int) -> bool {
    &&& 0 <= p <= rest.len()
    &&& now.len() == rest.len() + gone.len()
    &&& forall|k: int|
        0 <= k < now.len() ==> (#[trigger] now[k]).id == if k < p {
            rest[k].id
        } else if k < p + gone.len() {
            gone[k - p].id
        } else {
            rest[k - gone.len()].id
        }
}

proof fn lemma_stands(song: SongModel, ids: Seq<u32>, parent: Option<u32>, anchor: Option<u32>)
    requires
        song.can_move(ids, parent),
        !song.move_is_cyclic(ids, parent),
    ensures
        ({
            let (rest, gone) = moving::taken(song.tracks, ids, ids.len());
            stands_like(
                song.moved(ids, parent, anchor).tracks,
                rest,
                gone,
                moving::place_after(rest, anchor),
            )
        }),
{
    let (rest, gone) = moving::taken(song.tracks, ids, ids.len());
    if let Some(id) = anchor {
        lookup::lemma_track_place(rest, id);
    }
    let p = moving::place_after(rest, anchor);
    let order = moving::rearranged(song.tracks, ids, parent, anchor);
    let now = song.moved(ids, parent, anchor).tracks;
    assert forall|k: int| 0 <= k < now.len() implies (#[trigger] now[k]).id == if k < p {
        rest[k].id
    } else if k < p + gone.len() {
        gone[k - p].id
    } else {
        rest[k - gone.len()].id
    } by {
        assert(now[k].id == order[k].id);
        if p <= k < p + gone.len() {
            assert(order[k] == moving::under(gone, parent)[k - p]);
        }
    }
}

/// A track that is named can be moved.
proof fn lemma_can_move(song: SongModel, ids: Seq<u32>, parent: Option<u32>)
    requires
        have_own_ids(song.tracks),
        parent matches Some(p) ==> has_id(song.tracks, p),
        exists|i: int| 0 <= i < song.tracks.len() && ids.contains((#[trigger] song.tracks[i]).id),
    ensures
        song.can_move(ids, parent),
{
    let (at, first) = lemma_taken(song.tracks, ids, ids.len() as int);
    if let Some(p) = parent {
        lookup::lemma_track_place(song.tracks, p);
    }
    let i = choose|i: int| 0 <= i < song.tracks.len() && ids.contains((#[trigger] song.tracks[i]).id);
    assert(ids.take(ids.len() as int) =~= ids);
    assert(moving::taken(song.tracks, ids, ids.len()).1.contains(song.tracks[i]));
}

/// Moving tracks loses none and adds none. Every track that is named is in the group
/// then, and the others are in the groups that they were in. Nothing else of a song
/// changes, except that what does not run is stopped.
#[verifier::rlimit(40)]
pub proof fn law_moving_loses_no_track(song: SongModel, ids: Seq<u32>, parent: Option<u32>, anchor: Option<u32>)
    requires
        have_own_ids(song.tracks),
        parent matches Some(p) ==> has_id(song.tracks, p),
        !song.move_is_cyclic(ids, parent),
    ensures
        ({
            let now = song.moved(ids, parent, anchor);
            &&& now == (SongModel { tracks: now.tracks, ..song })
            &&& now.tracks.len() == song.tracks.len()
            &&& forall|k: int|
                0 <= k < now.tracks.len() ==> exists|i: int|
                    0 <= i < song.tracks.len() && is_track_moved(
                        #[trigger] now.tracks[k],
                        #[trigger] song.tracks[i],
                        ids,
                        parent,
                    )
            &&& forall|i: int|
                0 <= i < song.tracks.len() ==> exists|k: int|
                    0 <= k < now.tracks.len() && is_track_moved(
                        #[trigger] now.tracks[k],
                        #[trigger] song.tracks[i],
                        ids,
                        parent,
                    )
        }),
{
    let tracks = song.tracks;
    let now = song.moved(ids, parent, anchor).tracks;
    let (at, first) = lemma_taken(tracks, ids, ids.len() as int);
    let (rest, gone) = moving::taken(tracks, ids, ids.len());
    let p = moving::place_after(rest, anchor);
    assert(ids.take(ids.len() as int) =~= ids);
    if !song.can_move(ids, parent) {
        if exists|i: int| 0 <= i < tracks.len() && ids.contains((#[trigger] tracks[i]).id) {
            lemma_can_move(song, ids, parent);
        }
        assert forall|k: int| 0 <= k < now.len() implies is_track_moved(
            #[trigger] now[k],
            tracks[k],
            ids,
            parent,
        ) by {
        }
    } else {
        lemma_stands(song, ids, parent, anchor);
        let order = moving::rearranged(tracks, ids, parent, anchor);
        assert forall|k: int| 0 <= k < now.len() implies exists|i: int|
            0 <= i < tracks.len() && is_track_moved(#[trigger] now[k], #[trigger] tracks[i], ids, parent) by {
            if k < p {
                assert(order[k] == rest[k]);
                assert(at.contains(at[k]));
                assert(is_track_moved(now[k], tracks[at[k]], ids, parent));
            } else if k < p + gone.len() {
                let g = gone[k - p];
                assert(order[k] == moving::under(gone, parent)[k - p]);
                assert(tracks.contains(g));
                assert(ids[first[k - p]] == g.id);
                let i = choose|i: int| 0 <= i < tracks.len() && tracks[i] == g;
                assert(is_track_moved(now[k], tracks[i], ids, parent));
            } else {
                assert(order[k] == rest[k - gone.len()]);
                assert(at.contains(at[k - gone.len()]));
                assert(is_track_moved(now[k], tracks[at[k - gone.len()]], ids, parent));
            }
        }
        assert forall|i: int| 0 <= i < tracks.len() implies exists|k: int|
            0 <= k < now.len() && is_track_moved(#[trigger] now[k], #[trigger] tracks[i], ids, parent) by {
            if ids.contains(tracks[i].id) {
                assert(gone.contains(tracks[i]));
                let j = choose|j: int| 0 <= j < gone.len() && gone[j] == tracks[i];
                assert(order[p + j] == moving::under(gone, parent)[j]);
                assert(is_track_moved(now[p + j], tracks[i], ids, parent));
            } else {
                assert(at.contains(i));
                let r = choose|r: int| 0 <= r < at.len() && at[r] == i;
                assert(rest[r] == tracks[i]);
                if r < p {
                    assert(order[r] == rest[r]);
                    assert(is_track_moved(now[r], tracks[i], ids, parent));
                } else {
                    assert(order[r + gone.len()] == rest[r]);
                    assert(is_track_moved(now[r + gone.len()], tracks[i], ids, parent));
                }
            }
        }
        lemma_len(rest, gone, tracks, ids);
    }
}

proof fn lemma_len(rest: Seq<TrackModel>, gone: Seq<TrackModel>, tracks: Seq<TrackModel>, ids: Seq<u32>)
    requires
        (rest, gone) == moving::taken(tracks, ids, ids.len()),
    ensures
        rest.len() + gone.len() == tracks.len(),
{
    moving::lemma_taken_len(tracks, ids, ids.len());
}

/// Whether a track was moved.
pub open spec fn was_moved(now: Seq<TrackModel>, ids: Seq<u32>, k: int) -> bool {
    0 <= k < now.len() && ids.contains(now[k].id)
}

/// Moved tracks stand together, directly behind the anchor: whatever stands between the
/// anchor and a moved track was moved too. Without an anchor they stand in front of
/// everything else, and behind everything else if no other track has its id.
pub proof fn law_moved_tracks_stand_behind_the_anchor(
    song: SongModel,
    ids: Seq<u32>,
    parent: Option<u32>,
    anchor: Option<u32>,
)
    requires
        have_own_ids(song.tracks),
        parent matches Some(p) ==> has_id(song.tracks, p),
        exists|i: int| 0 <= i < song.tracks.len() && ids.contains((#[trigger] song.tracks[i]).id),
        !song.move_is_cyclic(ids, parent),
    ensures
        ({
            let now = song.moved(ids, parent, anchor).tracks;
            match anchor {
                None => was_moved(now, ids, 0) && forall|k: int, l: int|
                    0 <= l <= k && #[trigger] was_moved(now, ids, k) ==> #[trigger] was_moved(now, ids, l),
                Some(id) => if has_id(song.tracks, id) && !ids.contains(id) {
                    &&& exists|q: int| 0 <= q < now.len() && (#[trigger] now[q]).id == id && was_moved(now, ids, q + 1)
                    &&& forall|q: int, k: int|
                        0 <= q < now.len() && (#[trigger] now[q]).id == id && #[trigger] was_moved(now, ids, k) ==> q < k
                    &&& forall|q: int, k: int, l: int|
                        0 <= q < l <= k && (#[trigger] now[q]).id == id && #[trigger] was_moved(now, ids, k)
                            ==> #[trigger] was_moved(now, ids, l)
                } else {
                    was_moved(now, ids, now.len() - 1) && forall|k: int, l: int|
                        k <= l < now.len() && #[trigger] was_moved(now, ids, k) ==> #[trigger] was_moved(now, ids, l)
                },
            }
        }),
{
    let tracks = song.tracks;
    lemma_can_move(song, ids, parent);
    let now = song.moved(ids, parent, anchor).tracks;
    let (at, first) = lemma_taken(tracks, ids, ids.len() as int);
    let (rest, gone) = moving::taken(tracks, ids, ids.len());
    let p = moving::place_after(rest, anchor);
    assert(ids.take(ids.len() as int) =~= ids);
    lemma_stands(song, ids, parent, anchor);
    assert forall|k: int| 0 <= k < now.len() implies (#[trigger] was_moved(now, ids, k) <==> p <= k < p
        + gone.len()) by {
        if k < p {
            assert(at.contains(at[k]));
            assert(rest[k] == tracks[at[k]]);
        } else if k < p + gone.len() {
            assert(ids[first[k - p]] == gone[k - p].id);
        } else {
            let r = k - gone.len();
            assert(at.contains(at[r]));
            assert(rest[r] == tracks[at[r]]);
        }
    }
    if let Some(id) = anchor {
        lookup::lemma_track_place(rest, id);
        if has_id(tracks, id) && !ids.contains(id) {
            let i = choose|i: int| 0 <= i < tracks.len() && (#[trigger] tracks[i]).id == id;
            assert(at.contains(i));
            let r = choose|r: int| 0 <= r < at.len() && at[r] == i;
            assert(rest[r].id == id);
            assert(rest[p - 1].id == id);
            assert(tracks[at[p - 1]].id == id);
            assert(now[p - 1].id == id);
            assert(was_moved(now, ids, p - 1 + 1));
            assert forall|q: int| 0 <= q < now.len() && (#[trigger] now[q]).id == id implies q == p - 1 by {
                assert(!was_moved(now, ids, q));
                let s = if q < p {
                    q
                } else {
                    q - gone.len()
                };
                assert(rest[s].id == id);
                assert(rest[s] == tracks[at[s]]);
                assert(at[s] == at[p - 1]);
            }
        } else {
            if lookup::track_place(rest, id) is Some {
                let r = lookup::track_place(rest, id)->0;
                assert(at.contains(at[r]));
                assert(tracks[at[r]].id == id);
            }
        }
    }
}

/// Moved tracks stand in the order in which they are named, and those that were not moved
/// in the order in which they stood.
pub proof fn law_moving_keeps_the_order(song: SongModel, ids: Seq<u32>, parent: Option<u32>, anchor: Option<u32>)
    requires
        have_own_ids(song.tracks),
        parent matches Some(p) ==> has_id(song.tracks, p),
        !song.move_is_cyclic(ids, parent),
        exists|i: int| 0 <= i < song.tracks.len() && ids.contains((#[trigger] song.tracks[i]).id),
    ensures
        ({
            let now = song.moved(ids, parent, anchor).tracks;
            &&& have_own_ids(now)
            &&& forall|k: int, l: int|
                #[trigger] was_moved(now, ids, k) && #[trigger] was_moved(now, ids, l) && is_named_before(
                    ids,
                    now[k].id,
                    now[l].id,
                ) ==> k < l
            &&& forall|i: int, j: int, k: int, l: int|
                0 <= i < j < song.tracks.len() && 0 <= k < now.len() && 0 <= l < now.len() && (#[trigger] now[k]).id == (
                #[trigger] song.tracks[i]).id && (#[trigger] now[l]).id == (#[trigger] song.tracks[j]).id
                    && !ids.contains(now[k].id) && !ids.contains(now[l].id) ==> k < l
        }),
{
    let tracks = song.tracks;
    lemma_can_move(song, ids, parent);
    let now = song.moved(ids, parent, anchor).tracks;
    let (at, first) = lemma_taken(tracks, ids, ids.len() as int);
    let (rest, gone) = moving::taken(tracks, ids, ids.len());
    let p = moving::place_after(rest, anchor);
    assert(ids.take(ids.len() as int) =~= ids);
    lemma_stands(song, ids, parent, anchor);
    assert forall|k: int| 0 <= k < now.len() implies (ids.contains((#[trigger] now[k]).id) <==> p <= k < p
        + gone.len()) by {
        if k < p {
            assert(at.contains(at[k]));
            assert(rest[k] == tracks[at[k]]);
        } else if k < p + gone.len() {
            assert(ids[first[k - p]] == gone[k - p].id);
        } else {
            let r = k - gone.len();
            assert(at.contains(at[r]));
            assert(rest[r] == tracks[at[r]]);
        }
    }
    assert forall|k: int, l: int|
        #[trigger] was_moved(now, ids, k) && #[trigger] was_moved(now, ids, l) && is_named_before(
            ids,
            now[k].id,
            now[l].id,
        ) implies k < l by {
        let a = choose|a: int|
            0 <= a < ids.len() && #[trigger] ids[a] == now[k].id && forall|b: int|
                0 <= b <= a ==> #[trigger] ids[b] != now[l].id;
        assert(ids[first[k - p]] == now[k].id);
        assert(ids[first[l - p]] == now[l].id);
        assert(first[k - p] <= a);
        assert(a < first[l - p]);
        if l < k {
            assert(first[l - p] < first[k - p]);
        }
    }
    assert forall|i: int, j: int, k: int, l: int|
        0 <= i < j < tracks.len() && 0 <= k < now.len() && 0 <= l < now.len() && (#[trigger] now[k]).id == (
        #[trigger] tracks[i]).id && (#[trigger] now[l]).id == (#[trigger] tracks[j]).id && !ids.contains(now[k].id)
            && !ids.contains(now[l].id) implies k < l by {
        let rk = if k < p {
            k
        } else {
            k - gone.len()
        };
        let rl = if l < p {
            l
        } else {
            l - gone.len()
        };
        assert(rest[rk] == tracks[at[rk]]);
        assert(rest[rl] == tracks[at[rl]]);
        assert(at[rk] == i);
        assert(at[rl] == j);
        if rl < rk {
            assert(at[rl] < at[rk]);
        }
    }
    assert forall|k: int, l: int| 0 <= k < l < now.len() implies (#[trigger] now[k]).id != (#[trigger] now[l]).id by {
        if now[k].id == now[l].id {
            assert(ids.contains(now[k].id) == ids.contains(now[l].id));
            if ids.contains(now[k].id) {
                assert(ids[first[k - p]] == now[k].id);
                assert(ids[first[l - p]] == now[l].id);
                assert(first[k - p] < first[l - p]);
            } else {
                let rk = if k < p {
                    k
                } else {
                    k - gone.len()
                };
                let rl = if l < p {
                    l
                } else {
                    l - gone.len()
                };
                assert(rest[rk] == tracks[at[rk]]);
                assert(rest[rl] == tracks[at[rl]]);
                assert(at[rk] < at[rl]);
            }
        }
    }
}

} // verus!
