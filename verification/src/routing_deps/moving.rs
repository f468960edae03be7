//! Moving tracks between groups and places.

use super::graph;
use super::graph::{DependencyCycle, EdgeScope, TrackDeps};
use crate::model;
use crate::model::lookup;
use crate::model::track_enable;
use crate::model::{Song, SongModel, Track, TrackModel};
use vstd::prelude::*;

verus! {

/// What is left of the tracks, and what was taken, after taking the first track
/// with each of the first `n` ids.
pub open spec fn taken(tracks: Seq<TrackModel>, ids: Seq<u32>, n: nat) -> (Seq<TrackModel>, Seq<TrackModel>)
    decreases n,
{
    if n == 0 {
        (tracks, Seq::empty())
    } else {
        let before = taken(tracks, ids, (n - 1) as nat);
        match lookup::track_place(before.0, ids[n - 1]) {
            Some(i) => (before.0.remove(i), before.1.push(before.0[i])),
            None => before,
        }
    }
}

/// Tracks with their group set to `parent`.
pub open spec fn under(tracks: Seq<TrackModel>, parent: Option<u32>) -> Seq<TrackModel> {
    Seq::new(tracks.len(), |i: int| TrackModel { parent_group_id: parent, ..tracks[i] })
}

/// Where tracks go that are put after the track `anchor`: to the front without
/// one, to the end if it does not exist.
pub open spec fn place_after(tracks: Seq<TrackModel>, anchor: Option<u32>) -> int {
    match anchor {
        None => 0,
        Some(id) => match lookup::track_place(tracks, id) {
            Some(i) => i + 1,
            None => tracks.len() as int,
        },
    }
}

/// The tracks after moving those in `ids` under `parent` and behind `anchor`.
pub open spec fn rearranged(
    tracks: Seq<TrackModel>,
    ids: Seq<u32>,
    parent: Option<u32>,
    anchor: Option<u32>,
) -> Seq<TrackModel> {
    let (rest, moved) = taken(tracks, ids, ids.len());
    let at = place_after(rest, anchor);
    rest.take(at) + under(moved, parent) + rest.skip(at)
}

/// Order and grouping of the tracks.
pub open spec fn outline(tracks: Seq<TrackModel>) -> Seq<(u32, Option<u32>)> {
    Seq::new(tracks.len(), |i: int| (tracks[i].id, tracks[i].parent_group_id))
}

impl SongModel {
    /// Whether the tracks in `ids` can be moved at all: some of them exists, and
    /// so does the group.
    pub open spec fn can_move(self, ids: Seq<u32>, parent: Option<u32>) -> bool {
        &&& parent matches Some(p) ==> lookup::track_place(self.tracks, p) is Some
        &&& taken(self.tracks, ids, ids.len()).1.len() > 0
    }

    /// Whether a track changes its group and would close a cycle with it.
    pub open spec fn refuses_move(self, id: u32, parent: u32) -> bool {
        match lookup::track_place(self.tracks, id) {
            None => false,
            Some(i) => self.tracks[i].parent_group_id != Some(parent) && self.closes_cycle(parent, id),
        }
    }

    /// Whether moving the tracks in `ids` under `parent` is refused: one of them
    /// would close a cycle.
    pub open spec fn move_is_cyclic(self, ids: Seq<u32>, parent: Option<u32>) -> bool {
        match parent {
            None => false,
            Some(p) => lookup::track_place(self.tracks, p) is Some && exists|k: int|
                0 <= k < ids.len() && self.refuses_move(#[trigger] ids[k], p),
        }
    }

    /// The song after moving tracks.
    pub open spec fn moved(self, ids: Seq<u32>, parent: Option<u32>, anchor: Option<u32>) -> SongModel {
        if !self.can_move(ids, parent) || self.move_is_cyclic(ids, parent) {
            self
        } else {
            let tracks = rearranged(self.tracks, ids, parent, anchor);
            SongModel {
                tracks: if outline(tracks) != outline(self.tracks) {
                    track_enable::settled(tracks)
                } else {
                    tracks
                },
                ..self
            }
        }
    }
}

pub(crate) proof fn lemma_taken_len(tracks: Seq<TrackModel>, ids: Seq<u32>, n: nat)
    ensures
        taken(tracks, ids, n).0.len() + taken(tracks, ids, n).1.len() == tracks.len(),
    decreases n,
{
    if n > 0 {
        lemma_taken_len(tracks, ids, (n - 1) as nat);
        lookup::lemma_track_place(taken(tracks, ids, (n - 1) as nat).0, ids[n - 1]);
    }
}

/// The order and grouping of the tracks.
fn outline_of(song: &Song) -> (r: Vec<(u32, Option<u32>)>)
    ensures
        r@ == outline(song@.tracks),
{
    let mut r: Vec<(u32, Option<u32>)> = Vec::new();
    let mut i: usize = 0;
    while i < song.tracks.len()
        invariant
            i <= song.tracks@.len(),
            r@.len() == i,
            forall|k: int| 0 <= k < i ==> #[trigger] r@[k] == outline(song@.tracks)[k],
        decreases song.tracks@.len() - i,
    {
        assert(song@.tracks[i as int] == song.tracks@[i as int]@);
        r.push((song.tracks[i].id, song.tracks[i].parent_group_id));
        i += 1;
    }
    assert(r@ =~= outline(song@.tracks));
    r
}

/// Whether two optional ids are the same.
fn same_group(a: Option<u32>, b: Option<u32>) -> (r: bool)
    ensures
        r == (a == b),
{
    match (a, b) {
        (None, None) => true,
        (Some(x), Some(y)) => x == y,
        _ => false,
    }
}

/// Whether two outlines are the same.
fn same_outline(a: &Vec<(u32, Option<u32>)>, b: &Vec<(u32, Option<u32>)>) -> (r: bool)
    ensures
        r == (a@ == b@),
{
    if a.len() != b.len() {
        return false;
    }
    let mut i: usize = 0;
    while i < a.len()
        invariant
            a@.len() == b@.len(),
            i <= a@.len(),
            forall|k: int| 0 <= k < i ==> #[trigger] a@[k] == b@[k],
        decreases a@.len() - i,
    {
        if a[i].0 != b[i].0 || !same_group(a[i].1, b[i].1) {
            assert(a@[i as int] != b@[i as int]);
            return false;
        }
        assert(a@[i as int] == b@[i as int]);
        i += 1;
    }
    assert(a@ =~= b@);
    true
}

impl Song {
    /// Whether moving the tracks under `parent` is refused.
    fn move_closes_cycle(&self, track_ids: &[u32], parent: u32) -> (r: bool)
        requires
            lookup::track_place(self@.tracks, parent) is Some,
        ensures
            r == self@.move_is_cyclic(track_ids@, Some(parent)),
    {
        let deps = TrackDeps::build(self, EdgeScope::Wired);
        let mut k: usize = 0;
        while k < track_ids.len()
            invariant
                k <= track_ids@.len(),
                deps.valid(),
                deps.ids() == graph::track_ids(self@.tracks),
                deps.graph() == graph::song_graph(self@.tracks, EdgeScope::Wired),
                lookup::track_place(self@.tracks, parent) is Some,
                forall|j: int| 0 <= j < k ==> !self@.refuses_move(#[trigger] track_ids@[j], parent),
            decreases track_ids@.len() - k,
        {
            if let Some(t) = self.track_by_id(track_ids[k]) {
                if !same_group(t.parent_group_id, Some(parent)) && deps.would_cycle(parent, track_ids[k]) {
                    assert(self@.refuses_move(track_ids@[k as int], parent));
                    return true;
                }
            }
            k += 1;
        }
        false
    }

    /// Moves tracks under the group `parent` (none: to the top level) and behind
    /// the track `anchor_after` (none: to the front; not there: to the end). The
    /// one place where groups change, as [`Song::set_aux_input`] is for side
    /// chains and [`Song::can_add_send`] for sends.
    ///
    /// If a track that changes its group would close a cycle, nothing is written.
    /// Cycles that are there already are no reason to refuse. Ids that no track
    /// has are ignored; with a group that does not exist nothing happens. Returns
    /// whether order or grouping changed. Tracks that no longer run are settled.
    pub fn move_tracks(
        &mut self,
        track_ids: &[u32],
        parent: Option<u32>,
        anchor_after: Option<u32>,
    ) -> (r: Result<bool, DependencyCycle>)
        ensures
            r is Err <==> old(self)@.move_is_cyclic(track_ids@, parent),
            final(self)@ == old(self)@.moved(track_ids@, parent, anchor_after),
            r matches Ok(changed) ==> changed == (old(self)@.can_move(track_ids@, parent) && outline(
                rearranged(old(self)@.tracks, track_ids@, parent, anchor_after),
            ) != outline(old(self)@.tracks)),
    {
        if let Some(p) = parent {
            if self.track_by_id(p).is_none() {
                return Ok(false);
            }
            if self.move_closes_cycle(track_ids, p) {
                return Err(DependencyCycle);
            }
        }
        let ghost start = self@;
        let before = outline_of(self);
        let mut moved: Vec<Track> = Vec::new();
        let mut k: usize = 0;
        assert(model::models(moved@) =~= Seq::<TrackModel>::empty());
        while k < track_ids.len()
            invariant
                k <= track_ids@.len(),
                start == old(self)@,
                self@.tracks == taken(start.tracks, track_ids@, k as nat).0,
                model::models(moved@) == taken(start.tracks, track_ids@, k as nat).1,
                self@ == (SongModel { tracks: self@.tracks, ..start }),
            decreases track_ids@.len() - k,
        {
            let ghost tm = self@.tracks;
            if let Some(i) = self.track_index(track_ids[k]) {
                let ghost prev = self.tracks@;
                let ghost taken_before = moved@;
                let t = self.tracks.remove(i);
                moved.push(t);
                proof {
                    assert(self@.tracks =~= tm.remove(i as int));
                    assert(tm[i as int] == prev[i as int]@);
                    assert(model::models(moved@) =~= model::models(taken_before).push(tm[i as int]));
                }
            }
            k += 1;
        }
        if moved.len() == 0 {
            proof {
                lemma_nothing_taken(start.tracks, track_ids@, k as nat);
                assert(self@ =~= start);
            }
            return Ok(false);
        }
        let ghost taken_models = model::models(moved@);
        let mut j: usize = 0;
        while j < moved.len()
            invariant
                j <= moved@.len(),
                moved@.len() == taken_models.len(),
                forall|q: int|
                    0 <= q < moved@.len() ==> (#[trigger] moved@[q])@ == if q < j {
                        (TrackModel { parent_group_id: parent, ..taken_models[q] })
                    } else {
                        taken_models[q]
                    },
            decreases moved@.len() - j,
        {
            moved[j].parent_group_id = parent;
            j += 1;
        }
        let ghost rest = self@.tracks;
        let n: usize = self.tracks.len();
        let at: usize = match anchor_after {
            None => 0,
            Some(after) => match self.track_index(after) {
                Some(i) => i + 1,
                None => n,
            },
        };
        proof {
            lemma_taken_len(start.tracks, track_ids@, k as nat);
            assert(at == place_after(rest, anchor_after));
            assert(model::models(moved@) =~= under(taken_models, parent));
        }
        let ghost kept = self.tracks@;
        let ghost inserted = moved@;
        let mut tail = self.tracks.split_off(at);
        self.tracks.append(&mut moved);
        self.tracks.append(&mut tail);
        proof {
            assert(self.tracks@ =~= kept.take(at as int) + inserted + kept.skip(at as int));
            assert(self@.tracks =~= rearranged(start.tracks, track_ids@, parent, anchor_after));
        }
        let after = outline_of(self);
        if same_outline(&before, &after) {
            Ok(false)
        } else {
            self.settle_disabled_tracks();
            Ok(true)
        }
    }
}

proof fn lemma_nothing_taken(tracks: Seq<TrackModel>, ids: Seq<u32>, n: nat)
    requires
        taken(tracks, ids, n).1.len() == 0,
    ensures
        taken(tracks, ids, n).0 == tracks,
    decreases n,
{
    if n > 0 {
        lemma_nothing_taken(tracks, ids, (n - 1) as nat);
    }
}

} // verus!
