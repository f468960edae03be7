//! The rows of the launcher.
//!
//! Which rows there are and in what order is said here only: for each track the
//! row of the track and then those of its lanes, and after all tracks those of
//! the lanes of the song.

use crate::beat::Beat;
use crate::model;
use crate::model::automation::{AutomationLane, LaneModel, RowPlayback};
use crate::model::ids;
use crate::model::track_enable;
use crate::model::{Song, SongModel, TrackModel, MASTER_TRACK_ID};
use super::cells;
use super::cells::{CellSlice, SessionCells};
use super::params::ParamStoreIndex;
use super::positions;
use super::positions::{key_of_pair, PositionIndex};
use super::tracks::TrackIndex;
use std::collections::HashMap;
use vstd::prelude::*;

verus! {

broadcast use vstd::std_specs::hash::group_hash_axioms;

/// Where the cells of a row are kept.
#[derive(Clone, Copy, Debug, PartialEq, Eq, Structural)]
pub enum RowAt {
    Track(usize),
    /// The place of the track and that of the lane.
    TrackLane(usize, usize),
    SongLane(usize),
}

/// The model of a row.
pub struct Row {
    pub track_id: u32,
    /// Zero for the row of a track itself.
    pub lane_id: u32,
    pub at: RowAt,
}

/// The rows of lanes: those of the track at place `track`, or those of the song
/// if there is no track. Lanes that have no cells have no row.
pub open spec fn lane_rows(lanes: Seq<LaneModel>, track_id: u32, track: Option<usize>) -> Seq<Row>
    decreases lanes.len(),
{
    if lanes.len() == 0 {
        Seq::empty()
    } else {
        let front = lane_rows(lanes.drop_last(), track_id, track);
        let place = (lanes.len() - 1) as usize;
        if lanes.last().target.accepts_launcher_cells() {
            front.push(
                Row {
                    track_id,
                    lane_id: lanes.last().id,
                    at: match track {
                        Some(t) => RowAt::TrackLane(t, place),
                        None => RowAt::SongLane(place),
                    },
                },
            )
        } else {
            front
        }
    }
}

/// The rows of the first `n` tracks. A track that is not enabled, or below a
/// group that is not, has none.
pub open spec fn track_rows(tracks: Seq<TrackModel>, n: nat) -> Seq<Row>
    decreases n,
{
    if n == 0 {
        Seq::empty()
    } else {
        let front = track_rows(tracks, (n - 1) as nat);
        let i = n - 1;
        if track_enable::runs(tracks, i) {
            front.push(Row { track_id: tracks[i].id, lane_id: 0, at: RowAt::Track(i as usize) }) + lane_rows(
                tracks[i].automation_lanes,
                tracks[i].id,
                Some(i as usize),
            )
        } else {
            front
        }
    }
}

/// The rows of a song.
pub open spec fn rows_of(song: SongModel) -> Seq<Row> {
    track_rows(song.tracks, song.tracks.len()) + lane_rows(song.song_lanes, MASTER_TRACK_ID, None)
}

/// The rows by their keys.
pub open spec fn row_keys(rows: Seq<Row>) -> Seq<u128> {
    rows.map_values(|r: Row| positions::pair_key(r.track_id, r.lane_id))
}

/// Whether there is a row at a place.
pub open spec fn is_in(song: SongModel, at: RowAt) -> bool {
    match at {
        RowAt::Track(t) => t < song.tracks.len(),
        RowAt::TrackLane(t, l) => t < song.tracks.len() && l < song.tracks[t as int].automation_lanes.len(),
        RowAt::SongLane(l) => l < song.song_lanes.len(),
    }
}

/// The ids of the clips in the cells of a row.
pub open spec fn row_clip_ids(song: SongModel, at: RowAt) -> Seq<u32> {
    match at {
        RowAt::Track(t) => cells::track_clip_ids(song.tracks[t as int].session_clips),
        RowAt::TrackLane(t, l) => cells::lane_clip_ids(
            song.tracks[t as int].automation_lanes[l as int].session_clips,
        ),
        RowAt::SongLane(l) => cells::lane_clip_ids(song.song_lanes[l as int].session_clips),
    }
}

/// The scenes of the cells of a row.
pub open spec fn row_scene_ids(song: SongModel, at: RowAt) -> Seq<u32> {
    match at {
        RowAt::Track(t) => cells::track_scene_ids(song.tracks[t as int].session_clips),
        RowAt::TrackLane(t, l) => cells::lane_scene_ids(
            song.tracks[t as int].automation_lanes[l as int].session_clips,
        ),
        RowAt::SongLane(l) => cells::lane_scene_ids(song.song_lanes[l as int].session_clips),
    }
}

/// The lengths of the clips in the cells of a row.
pub open spec fn row_lengths(song: SongModel, at: RowAt) -> Seq<Beat> {
    match at {
        RowAt::Track(t) => cells::track_lengths(song.tracks[t as int].session_clips),
        RowAt::TrackLane(t, l) => cells::lane_lengths(
            song.tracks[t as int].automation_lanes[l as int].session_clips,
        ),
        RowAt::SongLane(l) => cells::lane_lengths(song.song_lanes[l as int].session_clips),
    }
}

/// Who played a row when the song was stored.
pub open spec fn row_saved(song: SongModel, at: RowAt) -> RowPlayback {
    match at {
        RowAt::Track(t) => song.tracks[t as int].launcher,
        RowAt::TrackLane(t, l) => song.tracks[t as int].automation_lanes[l as int].launcher,
        RowAt::SongLane(l) => song.song_lanes[l as int].launcher,
    }
}

/// The larger of two lengths; the first if the second is not larger or is no
/// number.
pub open spec fn longer(a: Beat, b: Beat) -> Beat {
    if a.lt(b) {
        b
    } else {
        a
    }
}

/// The length of the longest cell of a scene among rows, where of each row the
/// first cell of the scene counts. None if no row has one.
pub open spec fn longest(song: SongModel, rows: Seq<Row>, scene: u32) -> Option<Beat>
    decreases rows.len(),
{
    if rows.len() == 0 {
        None
    } else {
        let front = longest(song, rows.drop_last(), scene);
        let at = rows.last().at;
        match ids::place(row_scene_ids(song, at), scene) {
            Some(i) => Some(
                longer(
                    match front {
                        Some(b) => b,
                        None => Beat { bits: 0 },
                    },
                    row_lengths(song, at)[i],
                ),
            ),
            None => front,
        }
    }
}

proof fn lemma_lane_rows_in(song: SongModel, lanes: Seq<LaneModel>, track_id: u32, track: Option<usize>, n: int)
    requires
        0 <= n <= lanes.len() <= usize::MAX,
        track matches Some(t) ==> t < song.tracks.len() && lanes == song.tracks[t as int].automation_lanes,
        track is None ==> lanes == song.song_lanes,
    ensures
        forall|k: int|
            0 <= k < lane_rows(lanes.take(n), track_id, track).len() ==> is_in(
                song,
                (#[trigger] lane_rows(lanes.take(n), track_id, track)[k]).at,
            ),
    decreases n,
{
    if n > 0 {
        lemma_lane_rows_in(song, lanes, track_id, track, n - 1);
        assert(lanes.take(n).drop_last() =~= lanes.take(n - 1));
    }
}

proof fn lemma_track_rows_in(song: SongModel, n: nat)
    requires
        n <= song.tracks.len() <= usize::MAX,
        forall|i: int| 0 <= i < song.tracks.len() ==> (#[trigger] song.tracks[i]).automation_lanes.len() <= usize::MAX,
    ensures
        forall|k: int|
            0 <= k < track_rows(song.tracks, n).len() ==> is_in(song, (#[trigger] track_rows(song.tracks, n)[k]).at),
    decreases n,
{
    if n > 0 {
        lemma_track_rows_in(song, (n - 1) as nat);
        let i = n - 1;
        let lanes = song.tracks[i].automation_lanes;
        lemma_lane_rows_in(song, lanes, song.tracks[i].id, Some(i as usize), lanes.len() as int);
        assert(lanes.take(lanes.len() as int) =~= lanes);
    }
}

proof fn lemma_rows_in(song: SongModel)
    requires
        song.tracks.len() <= usize::MAX,
        song.song_lanes.len() <= usize::MAX,
        forall|i: int| 0 <= i < song.tracks.len() ==> (#[trigger] song.tracks[i]).automation_lanes.len() <= usize::MAX,
    ensures
        forall|k: int| 0 <= k < rows_of(song).len() ==> is_in(song, (#[trigger] rows_of(song)[k]).at),
{
    lemma_track_rows_in(song, song.tracks.len());
    let lanes = song.song_lanes;
    lemma_lane_rows_in(song, lanes, MASTER_TRACK_ID, None, lanes.len() as int);
    assert(lanes.take(lanes.len() as int) =~= lanes);
}

/// A row as it is kept.
#[derive(Clone, Copy)]
struct RowEntry {
    track_id: u32,
    lane_id: u32,
    at: RowAt,
}

spec fn entries(rows: Seq<RowEntry>) -> Seq<Row> {
    rows.map_values(|r: RowEntry| Row { track_id: r.track_id, lane_id: r.lane_id, at: r.at })
}

/// A row of the launcher with its cells.
#[derive(Clone, Copy)]
pub struct LauncherRow<'a> {
    pub track_id: u32,
    /// Zero for the row of a track itself.
    pub lane_id: u32,
    pub cells: SessionCells<'a>,
    /// Who played the row when the song was stored.
    pub saved: RowPlayback,
}

/// Whether indexes are those of the tracks and lanes of a song.
pub open spec fn index_song(tracks: Seq<TrackIndex>, store: ParamStoreIndex, song: SongModel) -> bool {
    &&& tracks.len() == song.tracks.len()
    &&& forall|i: int|
        0 <= i < tracks.len() ==> (#[trigger] tracks[i]).of() == song.tracks[i] && tracks[i].enabled()
            == track_enable::runs(song.tracks, i)
    &&& store.lanes() == song.song_lanes
    &&& store.routings() == song.song_mod_routings
}

/// Whether cells are those of a row.
pub open spec fn are_cells_of(c: CellSlice<'_>, song: SongModel, at: RowAt) -> bool {
    &&& c.clip_ids() == row_clip_ids(song, at)
    &&& c.scene_ids() == row_scene_ids(song, at)
    &&& c.lengths() == row_lengths(song, at)
}

/// Whether cells have the index that there is for the row at a place in the song
/// `known`; none if there was no such row, or if there are more or fewer cells now.
pub open spec fn are_known(c: SessionCells<'_>, known: SongModel, at: RowAt) -> bool {
    if is_in(known, at) {
        c.indexed_as(row_clip_ids(known, at), row_scene_ids(known, at))
    } else {
        c.index is None
    }
}

/// The cells of a row, with the index that there is at its place.
pub(crate) fn cells_at<'a>(
    song: &'a Song,
    tracks: &'a Vec<TrackIndex>,
    store: &'a ParamStoreIndex,
    at: RowAt,
    Ghost(known): Ghost<SongModel>,
) -> (r: Option<SessionCells<'a>>)
    requires
        index_song(tracks@, *store, known),
    ensures
        r is Some == is_in(song@, at),
        r matches Some(c) ==> are_cells_of(c.cells, song@, at) && are_known(c, known, at) && match at {
            RowAt::Track(t) => c.cells == CellSlice::Track(&song.tracks@[t as int].session_clips),
            RowAt::TrackLane(t, l) => c.cells == CellSlice::Lane(
                &song.tracks@[t as int].automation_lanes@[l as int].session_clips,
            ),
            RowAt::SongLane(l) => c.cells == CellSlice::Lane(&song.song_lanes@[l as int].session_clips),
        },
        known == song@ ==> (r matches Some(c) ==> c.indexed()),
{
    match at {
        RowAt::Track(t) => {
            if t >= song.tracks.len() {
                return None;
            }
            assert(song@.tracks[t as int] == song.tracks@[t as int]@);
            let cells = CellSlice::Track(&song.tracks[t].session_clips);
            if t >= tracks.len() {
                return Some(SessionCells { cells, index: None });
            }
            assert(tracks@[t as int].of() == known.tracks[t as int]);
            Some(SessionCells::new(cells, tracks[t].cells()))
        },
        RowAt::TrackLane(t, l) => {
            if t >= song.tracks.len() || l >= song.tracks[t].automation_lanes.len() {
                assert(song@.tracks.len() == song.tracks@.len());
                assert(t < song@.tracks.len() ==> song@.tracks[t as int] == song.tracks@[t as int]@);
                return None;
            }
            let lanes = &song.tracks[t].automation_lanes;
            assert(song@.tracks[t as int] == song.tracks@[t as int]@);
            assert(song@.tracks[t as int].automation_lanes[l as int] == lanes@[l as int]@);
            let cells = CellSlice::Lane(&lanes[l].session_clips);
            if t >= tracks.len() {
                return Some(SessionCells { cells, index: None });
            }
            assert(tracks@[t as int].of() == known.tracks[t as int]);
            match tracks[t].store().lane_cells(l) {
                Some(index) => Some(SessionCells::new(cells, index)),
                None => Some(SessionCells { cells, index: None }),
            }
        },
        RowAt::SongLane(l) => {
            if l >= song.song_lanes.len() {
                return None;
            }
            assert(song@.song_lanes[l as int] == song.song_lanes@[l as int]@);
            let cells = CellSlice::Lane(&song.song_lanes[l].session_clips);
            match store.lane_cells(l) {
                Some(index) => Some(SessionCells::new(cells, index)),
                None => Some(SessionCells { cells, index: None }),
            }
        },
    }
}

/// Appends the rows of lanes.
fn push_lane_rows(rows: &mut Vec<RowEntry>, lanes: &Vec<AutomationLane>, track_id: u32, track: Option<usize>)
    ensures
        entries(final(rows)@) == entries(old(rows)@) + lane_rows(model::models(lanes@), track_id, track),
{
    let ghost lm = model::models(lanes@);
    let ghost before = entries(rows@);
    let mut l: usize = 0;
    assert(lm.take(0) =~= Seq::<LaneModel>::empty());
    assert(entries(rows@) =~= before + lane_rows(lm.take(0), track_id, track));
    while l < lanes.len()
        invariant
            lm == model::models(lanes@),
            l <= lanes@.len(),
            entries(rows@) == before + lane_rows(lm.take(l as int), track_id, track),
        decreases lanes@.len() - l,
    {
        let lane = &lanes[l];
        let ghost was = entries(rows@);
        proof {
            assert(lm[l as int] == lane@);
            assert(lm.take(l + 1).drop_last() =~= lm.take(l as int));
        }
        if lane.target.accepts_launcher_cells() {
            let at = match track {
                Some(t) => RowAt::TrackLane(t, l),
                None => RowAt::SongLane(l),
            };
            rows.push(RowEntry { track_id, lane_id: lane.id, at });
            assert(entries(rows@) =~= was.push(Row { track_id, lane_id: lane.id, at }));
        }
        assert(entries(rows@) =~= before + lane_rows(lm.take(l + 1), track_id, track));
        l += 1;
    }
    assert(lm.take(l as int) =~= lm);
}

/// The rows of a song.
fn list_rows(song: &Song, tracks: &Vec<TrackIndex>) -> (rows: Vec<RowEntry>)
    requires
        tracks@.len() == song@.tracks.len(),
        forall|i: int|
            0 <= i < tracks@.len() ==> (#[trigger] tracks@[i]).enabled() == track_enable::runs(song@.tracks, i),
    ensures
        entries(rows@) == rows_of(song@),
{
    let mut rows: Vec<RowEntry> = Vec::new();
    let mut t: usize = 0;
    assert(entries(rows@) =~= track_rows(song@.tracks, 0));
    while t < song.tracks.len()
        invariant
            tracks@.len() == song@.tracks.len(),
            forall|i: int|
                0 <= i < tracks@.len() ==> (#[trigger] tracks@[i]).enabled() == track_enable::runs(song@.tracks, i),
            t <= song@.tracks.len(),
            entries(rows@) == track_rows(song@.tracks, t as nat),
        decreases song@.tracks.len() - t,
    {
        let track = &song.tracks[t];
        assert(song@.tracks[t as int] == track@);
        if tracks[t].is_enabled() {
            let ghost was = entries(rows@);
            rows.push(RowEntry { track_id: track.id, lane_id: 0, at: RowAt::Track(t) });
            assert(entries(rows@) =~= was.push(Row { track_id: track.id, lane_id: 0, at: RowAt::Track(t) }));
            push_lane_rows(&mut rows, &track.automation_lanes, track.id, Some(t));
        }
        t += 1;
    }
    push_lane_rows(&mut rows, &song.song_lanes, MASTER_TRACK_ID, None);
    rows
}

/// Whether a map has exactly the value `v` for a key.
spec fn holds(m: Map<u32, Beat>, key: u32, v: Option<Beat>) -> bool {
    match v {
        Some(b) => m.contains_key(key) && m[key] == b,
        None => !m.contains_key(key),
    }
}

/// The rows of the launcher, by their keys, and the longest cell of each scene.
pub struct LauncherIndex {
    rows: Vec<RowEntry>,
    row_pos: PositionIndex,
    scenes: HashMap<u32, Beat>,
    of: Ghost<SongModel>,
}

impl LauncherIndex {
    /// The song that this is the index of.
    pub closed spec fn of(self) -> SongModel {
        self.of@
    }

    #[verifier::type_invariant]
    spec fn inv(self) -> bool {
        let song = self.of@;
        &&& entries(self.rows@) == rows_of(song)
        &&& self.row_pos.of() == row_keys(rows_of(song))
        &&& forall|k: int| 0 <= k < rows_of(song).len() ==> is_in(song, (#[trigger] rows_of(song)[k]).at)
        &&& forall|s: u32| holds(self.scenes@, s, #[trigger] longest(song, rows_of(song), s))
    }

    /// The index of a song, from those of its tracks and lanes.
    pub fn build(song: &Song, tracks: &Vec<TrackIndex>, store: &ParamStoreIndex) -> (r: LauncherIndex)
        requires
            index_song(tracks@, *store, song@),
        ensures
            r.of() == song@,
    {
        proof {
            assert forall|i: int| 0 <= i < song@.tracks.len() implies (
            #[trigger] song@.tracks[i]).automation_lanes.len() <= usize::MAX by {
                assert(song@.tracks[i] == song.tracks@[i]@);
                assert(song.tracks@[i].automation_lanes.len() == song@.tracks[i].automation_lanes.len());
            }
            assert(song.tracks.len() == song@.tracks.len());
            assert(song.song_lanes.len() == song@.song_lanes.len());
            lemma_rows_in(song@);
        }
        let rows = list_rows(song, tracks);
        let ghost model_rows = rows_of(song@);
        let mut keys: Vec<u128> = Vec::new();
        let mut i: usize = 0;
        while i < rows.len()
            invariant
                entries(rows@) == model_rows,
                i <= rows@.len(),
                keys@ == row_keys(model_rows).take(i as int),
            decreases rows@.len() - i,
        {
            assert(model_rows[i as int] == entries(rows@)[i as int]);
            keys.push(key_of_pair(rows[i].track_id, rows[i].lane_id));
            assert(keys@ =~= row_keys(model_rows).take(i + 1));
            i += 1;
        }
        assert(row_keys(model_rows).take(i as int) =~= row_keys(model_rows));
        let scenes = Self::longest_cells(song, tracks, store, &rows);
        LauncherIndex { rows, row_pos: PositionIndex::build(&keys), scenes, of: Ghost(song@) }
    }

    fn longest_cells(
        song: &Song,
        tracks: &Vec<TrackIndex>,
        store: &ParamStoreIndex,
        rows: &Vec<RowEntry>,
    ) -> (m: HashMap<u32, Beat>)
        requires
            index_song(tracks@, *store, song@),
            entries(rows@) == rows_of(song@),
            forall|k: int| 0 <= k < rows_of(song@).len() ==> is_in(song@, (#[trigger] rows_of(song@)[k]).at),
        ensures
            forall|s: u32| holds(m@, s, #[trigger] longest(song@, rows_of(song@), s)),
    {
        let ghost all = rows_of(song@);
        let mut m: HashMap<u32, Beat> = HashMap::new();
        let mut k: usize = 0;
        assert(all.take(0) =~= Seq::<Row>::empty());
        while k < rows.len()
            invariant
                index_song(tracks@, *store, song@),
                entries(rows@) == all,
                forall|k: int| 0 <= k < all.len() ==> is_in(song@, (#[trigger] all[k]).at),
                k <= rows@.len(),
                forall|s: u32| holds(m@, s, #[trigger] longest(song@, all.take(k as int), s)),
            decreases rows@.len() - k,
        {
            let ghost row = all[k as int];
            assert(row == entries(rows@)[k as int]);
            let cells = match cells_at(song, tracks, store, rows[k].at, Ghost(song@)) {
                Some(cells) => cells,
                None => {
                    assert(false);
                    return m;
                },
            };
            let scenes = cells.scenes();
            let ghost upto = all.take(k as int);
            let ghost next = all.take(k + 1);
            proof {
                assert(next.drop_last() =~= upto);
                assert(next.last() == row);
            }
            let mut j: usize = 0;
            while j < scenes.len()
                invariant
                    cells.indexed(),
                    cells.cells.scene_ids() == row_scene_ids(song@, row.at),
                    cells.cells.lengths() == row_lengths(song@, row.at),
                    scenes@.no_duplicates(),
                    forall|s: u32|
                        #[trigger] scenes@.contains(s) <==> ids::place(row_scene_ids(song@, row.at), s) is Some,
                    next.drop_last() == upto,
                    next.len() > 0,
                    next.last() == row,
                    j <= scenes@.len(),
                    forall|s: u32|
                        scenes@.take(j as int).contains(s) ==> holds(m@, s, #[trigger] longest(song@, next, s)),
                    forall|s: u32|
                        !scenes@.take(j as int).contains(s) ==> holds(m@, s, #[trigger] longest(song@, upto, s)),
                decreases scenes@.len() - j,
            {
                let scene: u32 = scenes[j];
                let ghost done = scenes@.take(j as int);
                proof {
                    assert(scenes@.contains(scene));
                    if done.contains(scene) {
                        let a = choose|a: int| 0 <= a < done.len() && done[a] == scene;
                        assert(scenes@[a] == scenes@[j as int]);
                    }
                    assert(holds(m@, scene, longest(song@, upto, scene)));
                }
                let before = m.get(&scene);
                let so_far: Beat = match before {
                    Some(b) => *b,
                    None => Beat::zero(),
                };
                if let Some(pos) = cells.scene_pos(scene) {
                    if let Some(len) = cells.length_at(pos) {
                        let ghost was = m@;
                        let longer: Beat = if so_far.lt(len) {
                            len
                        } else {
                            so_far
                        };
                        m.insert(scene, longer);
                        proof {
                            let after = scenes@.take(j + 1);
                            assert(after =~= done.push(scene));
                            assert(longest(song@, next, scene) == Some(longer));
                            assert forall|s: u32| after.contains(s) implies holds(
                                m@,
                                s,
                                #[trigger] longest(song@, next, s),
                            ) by {
                                if s != scene {
                                    let a = choose|a: int| 0 <= a < after.len() && after[a] == s;
                                    assert(done[a] == s);
                                }
                            }
                            assert forall|s: u32| !after.contains(s) implies holds(
                                m@,
                                s,
                                #[trigger] longest(song@, upto, s),
                            ) by {
                                assert(after[j as int] == scene);
                                if done.contains(s) {
                                    let a = choose|a: int| 0 <= a < done.len() && done[a] == s;
                                    assert(after[a] == s);
                                }
                            }
                        }
                    }
                }
                j += 1;
            }
            proof {
                assert(scenes@.take(j as int) =~= scenes@);
                assert forall|s: u32| holds(m@, s, #[trigger] longest(song@, next, s)) by {
                    if !scenes@.contains(s) {
                        assert(longest(song@, next, s) == longest(song@, upto, s));
                    }
                }
            }
            k += 1;
        }
        assert(all.take(k as int) =~= all);
        m
    }

    /// How many rows there are.
    pub fn row_count(&self) -> (r: usize)
        ensures
            r == rows_of(self.of()).len(),
    {
        proof {
            use_type_invariant(self);
        }
        assert(entries(self.rows@).len() == self.rows@.len());
        self.rows.len()
    }

    /// The keys and the place of the row at place `i`.
    pub fn row(&self, i: usize) -> (r: Option<(u32, u32, RowAt)>)
        ensures
            r is Some == (i < rows_of(self.of()).len()),
            r matches Some(row) ==> row.0 == rows_of(self.of())[i as int].track_id && row.1 == rows_of(
                self.of(),
            )[i as int].lane_id && row.2 == rows_of(self.of())[i as int].at && is_in(self.of(), row.2),
    {
        proof {
            use_type_invariant(self);
        }
        assert(entries(self.rows@).len() == self.rows@.len());
        if i < self.rows.len() {
            let row = self.rows[i];
            assert(rows_of(self.of@)[i as int] == entries(self.rows@)[i as int]);
            Some((row.track_id, row.lane_id, row.at))
        } else {
            None
        }
    }

    /// The place of the first row with the given key.
    pub fn row_pos(&self, track_id: u32, lane_id: u32) -> (r: Option<usize>)
        ensures
            match r {
                Some(i) => i < rows_of(self.of()).len() && positions::place(
                    row_keys(rows_of(self.of())),
                    positions::pair_key(track_id, lane_id),
                ) == Some(i as int),
                None => positions::place(
                    row_keys(rows_of(self.of())),
                    positions::pair_key(track_id, lane_id),
                ) is None,
            },
    {
        proof {
            use_type_invariant(self);
        }
        self.row_pos.find(key_of_pair(track_id, lane_id))
    }

    /// The length of the longest cell of a scene.
    pub fn scene_longest(&self, scene: u32) -> (r: Option<Beat>)
        ensures
            r == longest(self.of(), rows_of(self.of()), scene),
    {
        proof {
            use_type_invariant(self);
            assert(holds(self.scenes@, scene, longest(self.of@, rows_of(self.of@), scene)));
        }
        match self.scenes.get(&scene) {
            Some(b) => Some(*b),
            None => None,
        }
    }
}

} // verus!
