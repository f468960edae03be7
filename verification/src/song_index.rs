//! Indexes over a song.
//!
//! They are built where there is time, and handed to the audio thread together
//! with the song they are of. There nothing is searched from the front: what an
//! index answers is what such a search would find.
//!
//! An index is for the song that it was built from. Read with another one it does no
//! harm: what it looks for is where it was in its own song or nowhere, a store with more
//! or fewer lanes or routings counts as empty, and a device or a chain at the end of a
//! path counts as absent if it has another id.

pub mod cells;
pub mod launcher;
pub mod laws;
pub mod nodes;
pub mod params;
pub mod positions;
pub mod ranges;
pub mod tracks;

use crate::beat::Beat;
use crate::model;
use crate::model::automation::ParamStoreAt;
use crate::model::clip::{ClipContent, ContentEvent, ContentModel, Note};
use crate::model::device;
use crate::model::ids;
use crate::model::lookup;
use crate::model::track_enable;
use crate::model::track_ids;
use crate::model::{
    Device, DeviceModel, NativeDevice, Parallel, ParallelChain, Scene, Send, SessionClip, Song, SongModel, TrackModel,
};
use crate::plugin_db;
use crate::transpose;
use vstd::prelude::*;

pub use cells::{CellIndex, CellSlice, SessionCells};
pub use launcher::{LauncherIndex, LauncherRow, RowAt};
pub use nodes::NodeIndex;
pub use params::{LaneView, ParamStore, ParamStoreIndex, ParamSubject, TargetRoutings};
pub use positions::PositionIndex;
pub use ranges::{CoverIndex, EndTree, RangeIndex};
pub use tracks::TrackIndex;

verus! {

/// The ids of tracks.
pub open spec fn ids_of_tracks(tracks: Seq<TrackModel>) -> Seq<u32> {
    tracks.map_values(|t: TrackModel| t.id)
}

proof fn lemma_track_place(tracks: Seq<TrackModel>, id: u32, from: int)
    ensures
        ids::place_from(ids_of_tracks(tracks), id, from) == lookup::track_place_from(tracks, id, from),
    decreases tracks.len() - from,
{
    if 0 <= from < tracks.len() {
        lemma_track_place(tracks, id, from + 1);
    }
}

/// The ids of scenes.
pub open spec fn ids_of_scenes(scenes: Seq<Scene>) -> Seq<u32> {
    scenes.map_values(|s: Scene| s.id)
}

/// The ids of contents.
pub open spec fn ids_of_contents(contents: Seq<(u32, ContentModel)>) -> Seq<u32> {
    contents.map_values(|c: (u32, ContentModel)| c.0)
}

/// Notes as intervals, from where they start to where they end.
pub open spec fn note_ranges(notes: Seq<Note>) -> Seq<(Beat, Beat)> {
    notes.map_values(|n: Note| (n.start_beat, n.end_beat))
}

/// Events as the points at which they start.
pub open spec fn event_ranges(events: Seq<ContentEvent>) -> Seq<(Beat, Beat)> {
    events.map_values(|e: ContentEvent| (e.start_beat, e.start_beat))
}

/// The intervals of a content: its notes or its texts. Other contents have none.
pub open spec fn ranges_of(content: ContentModel) -> Option<Seq<(Beat, Beat)>> {
    match content {
        ContentModel::Midi(notes) => Some(note_ranges(notes)),
        ContentModel::Text(events) => Some(event_ranges(events)),
        _ => None,
    }
}

/// The intervals of the content with id `id`.
pub open spec fn content_ranges_of(contents: Seq<(u32, ContentModel)>, id: u32) -> Option<Seq<(Beat, Beat)>> {
    match ids::place(ids_of_contents(contents), id) {
        Some(i) => ranges_of(contents[i].1),
        None => None,
    }
}

/// Whether an index, if there is one, is that of a content.
spec fn indexes_content(index: Option<RangeIndex>, content: ContentModel) -> bool {
    match index {
        Some(r) => ranges_of(content) == Some(r.of()),
        None => ranges_of(content) is None,
    }
}

/// The index of a content.
fn index_content(content: &ClipContent) -> (r: Option<RangeIndex>)
    ensures
        indexes_content(r, content@),
{
    match content {
        ClipContent::Midi(notes) => {
            let mut intervals: Vec<(Beat, Beat)> = Vec::new();
            let mut i: usize = 0;
            while i < notes.len()
                invariant
                    i <= notes@.len(),
                    intervals@.len() == i,
                    forall|k: int|
                        0 <= k < i ==> #[trigger] intervals@[k] == (notes@[k].start_beat, notes@[k].end_beat),
                decreases notes@.len() - i,
            {
                intervals.push((notes[i].start_beat, notes[i].end_beat));
                i += 1;
            }
            assert(intervals@ =~= note_ranges(notes@));
            Some(RangeIndex::build(&intervals))
        },
        ClipContent::Text(events) => {
            let mut intervals: Vec<(Beat, Beat)> = Vec::new();
            let mut i: usize = 0;
            while i < events.len()
                invariant
                    i <= events@.len(),
                    intervals@.len() == i,
                    forall|k: int|
                        0 <= k < i ==> #[trigger] intervals@[k] == (events@[k].start_beat, events@[k].start_beat),
                decreases events@.len() - i,
            {
                intervals.push((events[i].start_beat, events[i].start_beat));
                i += 1;
            }
            assert(intervals@ =~= event_ranges(events@));
            Some(RangeIndex::build(&intervals))
        },
        _ => None,
    }
}

/// Whether a store is that of the track at a place in a song, with the index that was made
/// of the track at that place in the song `known`.
pub open spec fn is_track_store(r: ParamStore<'_>, known: SongModel, song: SongModel, i: int) -> bool {
    if i < song.tracks.len() && i < known.tracks.len() {
        r.pairs(
            song.tracks[i].automation_lanes,
            song.tracks[i].mod_routings,
            known.tracks[i].automation_lanes,
            known.tracks[i].mod_routings,
        )
    } else {
        r.is_empty()
    }
}

/// The send of the track at a place in a song that is where the first one with id `id` was
/// in the song `known`.
pub open spec fn found_send(known: SongModel, song: SongModel, i: int, id: u32) -> Option<Send> {
    if i < song.tracks.len() && i < known.tracks.len() {
        match ids::place(track_ids::send_ids(known.tracks[i].sends), id) {
            Some(k) => if k < song.tracks[i].sends.len() {
                Some(song.tracks[i].sends[k])
            } else {
                None
            },
            None => None,
        }
    } else {
        None
    }
}

/// The cell of the track at a place in a song that is where the first one whose clip has id
/// `id` was in the song `known`; none if the track has more or fewer cells now.
pub open spec fn found_cell(known: SongModel, song: SongModel, i: int, id: u32) -> Option<SessionClip> {
    if i < song.tracks.len() && i < known.tracks.len() && song.tracks[i].session_clips.len()
        == known.tracks[i].session_clips.len() {
        match ids::place(cells::track_clip_ids(known.tracks[i].session_clips), id) {
            Some(k) => Some(song.tracks[i].session_clips[k]),
            None => None,
        }
    } else {
        None
    }
}

/// The index of a song.
pub struct SongIndex {
    song: ParamStoreIndex,
    tracks: Vec<TrackIndex>,
    track_pos: PositionIndex,
    scene_pos: PositionIndex,
    nodes: NodeIndex,
    content_pos: PositionIndex,
    contents: Vec<Option<RangeIndex>>,
    launcher: LauncherIndex,
    of: Ghost<SongModel>,
}

impl SongIndex {
    /// The song that this is the index of.
    pub closed spec fn of(self) -> SongModel {
        self.of@
    }

    #[verifier::type_invariant]
    spec fn inv(self) -> bool {
        let song = self.of@;
        &&& launcher::index_song(self.tracks@, self.song, song)
        &&& forall|i: int|
            0 <= i < self.tracks@.len() ==> (#[trigger] self.tracks@[i]).follows() == transpose::follows(
                song.tracks,
                song.tracks[i].id,
            )
        &&& self.track_pos.of() == positions::id_keys(ids_of_tracks(song.tracks))
        &&& self.scene_pos.of() == positions::id_keys(ids_of_scenes(song.scenes))
        &&& self.nodes.of() == nodes::song_lists(song)
        &&& self.content_pos.of() == positions::id_keys(ids_of_contents(song.clip_contents))
        &&& self.contents@.len() == song.clip_contents.len()
        &&& forall|i: int|
            0 <= i < self.contents@.len() ==> indexes_content(#[trigger] self.contents@[i], song.clip_contents[i].1)
        &&& self.launcher.of() == song
    }

    /// The index of a song.
    pub fn build(song: &Song) -> (r: SongIndex)
        ensures
            r.of() == song@,
    {
        let enabled = song.effectively_enabled_mask();
        let follows = song.follows_transpose_mask();
        let mut tracks: Vec<TrackIndex> = Vec::new();
        let mut track_keys: Vec<u128> = Vec::new();
        let mut i: usize = 0;
        while i < song.tracks.len()
            invariant
                enabled@.len() == song@.tracks.len(),
                forall|k: int|
                    0 <= k < enabled@.len() ==> #[trigger] enabled@[k] == track_enable::runs(song@.tracks, k),
                follows@.len() == song@.tracks.len(),
                forall|k: int|
                    0 <= k < follows@.len() ==> #[trigger] follows@[k] == transpose::follows(
                        song@.tracks,
                        song@.tracks[k].id,
                    ),
                i <= song@.tracks.len(),
                tracks@.len() == i,
                track_keys@.len() == i,
                forall|k: int| 0 <= k < i ==> #[trigger] track_keys@[k] == song@.tracks[k].id as u128,
                forall|k: int|
                    0 <= k < i ==> (#[trigger] tracks@[k]).of() == song@.tracks[k] && tracks@[k].enabled()
                        == track_enable::runs(song@.tracks, k) && tracks@[k].follows() == transpose::follows(
                        song@.tracks,
                        song@.tracks[k].id,
                    ),
            decreases song@.tracks.len() - i,
        {
            assert(song@.tracks[i as int] == song.tracks@[i as int]@);
            tracks.push(TrackIndex::build(&song.tracks[i], enabled[i], follows[i]));
            track_keys.push(song.tracks[i].id as u128);
            i += 1;
        }
        assert(track_keys@ =~= positions::id_keys(ids_of_tracks(song@.tracks)));
        let mut scene_keys: Vec<u128> = Vec::new();
        let mut j: usize = 0;
        while j < song.scenes.len()
            invariant
                j <= song.scenes@.len(),
                scene_keys@.len() == j,
                forall|k: int| 0 <= k < j ==> #[trigger] scene_keys@[k] == song.scenes@[k].id as u128,
            decreases song.scenes@.len() - j,
        {
            scene_keys.push(song.scenes[j].id as u128);
            j += 1;
        }
        assert(scene_keys@ =~= positions::id_keys(ids_of_scenes(song@.scenes)));
        let mut contents: Vec<Option<RangeIndex>> = Vec::new();
        let mut content_keys: Vec<u128> = Vec::new();
        let mut c: usize = 0;
        while c < song.clip_contents.len()
            invariant
                c <= song.clip_contents@.len(),
                contents@.len() == c,
                content_keys@.len() == c,
                forall|k: int| 0 <= k < c ==> #[trigger] content_keys@[k] == song.clip_contents@[k].0 as u128,
                forall|k: int|
                    0 <= k < c ==> indexes_content(#[trigger] contents@[k], song.clip_contents@[k].1@),
            decreases song.clip_contents@.len() - c,
        {
            contents.push(index_content(&song.clip_contents[c].1));
            content_keys.push(song.clip_contents[c].0 as u128);
            c += 1;
        }
        assert(content_keys@ =~= positions::id_keys(ids_of_contents(song@.clip_contents)));
        let store = ParamStoreIndex::build(&song.song_lanes, &song.song_mod_routings);
        let launcher = LauncherIndex::build(song, &tracks, &store);
        SongIndex {
            song: store,
            tracks,
            track_pos: PositionIndex::build(&track_keys),
            scene_pos: PositionIndex::build(&scene_keys),
            nodes: NodeIndex::build(song),
            content_pos: PositionIndex::build(&content_keys),
            contents,
            launcher,
            of: Ghost(song@),
        }
    }

    /// The lanes and routings of the song.
    pub fn song_store<'a>(&'a self, song: &'a Song) -> (r: ParamStore<'a>)
        ensures
            r.pairs(song@.song_lanes, song@.song_mod_routings, self.of().song_lanes, self.of().song_mod_routings),
            self.of() == song@ ==> r.lanes() == song@.song_lanes && r.routings() == song@.song_mod_routings
                && r.current(),
    {
        proof {
            use_type_invariant(self);
        }
        ParamStore::new(&song.song_lanes, &song.song_mod_routings, &self.song)
    }

    /// The lanes and routings of the track at place `track_idx`; nothing if there
    /// is none.
    pub fn track_store<'a>(&'a self, song: &'a Song, track_idx: usize) -> (r: ParamStore<'a>)
        ensures
            is_track_store(r, self.of(), song@, track_idx as int),
            self.of() == song@ ==> r.current(),
            self.of() == song@ && track_idx < song@.tracks.len() ==> r.lanes()
                == song@.tracks[track_idx as int].automation_lanes && r.routings()
                == song@.tracks[track_idx as int].mod_routings,
    {
        proof {
            use_type_invariant(self);
        }
        if track_idx < song.tracks.len() && track_idx < self.tracks.len() {
            let t = &song.tracks[track_idx];
            assert(song@.tracks[track_idx as int] == t@);
            assert(self.tracks@[track_idx as int].of() == self.of@.tracks[track_idx as int]);
            ParamStore::new(&t.automation_lanes, &t.mod_routings, self.tracks[track_idx].store())
        } else {
            ParamStore::empty()
        }
    }

    /// The lanes and routings kept at `at`.
    pub fn store<'a>(&'a self, song: &'a Song, at: ParamStoreAt) -> (r: ParamStore<'a>)
        ensures
            match at {
                ParamStoreAt::Song => r.pairs(
                    song@.song_lanes,
                    song@.song_mod_routings,
                    self.of().song_lanes,
                    self.of().song_mod_routings,
                ),
                ParamStoreAt::Track(i) => is_track_store(r, self.of(), song@, i as int),
            },
            self.of() == song@ ==> r.current() && match at {
                ParamStoreAt::Song => r.lanes() == song@.song_lanes && r.routings() == song@.song_mod_routings,
                ParamStoreAt::Track(i) => i < song@.tracks.len() ==> r.lanes()
                    == song@.tracks[i as int].automation_lanes && r.routings() == song@.tracks[i as int].mod_routings,
            },
    {
        match at {
            ParamStoreAt::Song => self.song_store(song),
            ParamStoreAt::Track(i) => self.track_store(song, i as usize),
        }
    }

    /// The place of the first track with id `track_id`.
    pub fn track_pos(&self, track_id: u32) -> (r: Option<usize>)
        ensures
            match r {
                Some(i) => i < self.of().tracks.len() && lookup::track_place(self.of().tracks, track_id) == Some(
                    i as int,
                ),
                None => lookup::track_place(self.of().tracks, track_id) is None,
            },
    {
        proof {
            use_type_invariant(self);
            positions::lemma_id_place(ids_of_tracks(self.of@.tracks), track_id, 0);
            lemma_track_place(self.of@.tracks, track_id, 0);
        }
        self.track_pos.find(track_id as u128)
    }

    /// The place of the first scene with id `scene_id`.
    pub fn scene_pos(&self, scene_id: u32) -> (r: Option<usize>)
        ensures
            match r {
                Some(i) => i < self.of().scenes.len() && ids::place(ids_of_scenes(self.of().scenes), scene_id) == Some(
                    i as int,
                ),
                None => ids::place(ids_of_scenes(self.of().scenes), scene_id) is None,
            },
    {
        proof {
            use_type_invariant(self);
            positions::lemma_id_place(ids_of_scenes(self.of@.scenes), scene_id, 0);
        }
        self.scene_pos.find(scene_id as u128)
    }

    /// Whether the track at place `track_idx` sings; false if there is none.
    pub fn is_voicevox_vocal(&self, track_idx: usize) -> (r: bool)
        ensures
            r == (track_idx < self.of().tracks.len() && track_ids::has_builtin_plugin(
                self.of().tracks[track_idx as int].devices,
                plugin_db::BUILTIN_ID_VOICEVOX@,
            )),
    {
        proof {
            use_type_invariant(self);
        }
        if track_idx < self.tracks.len() {
            assert(self.tracks@[track_idx as int].of() == self.of@.tracks[track_idx as int]);
            self.tracks[track_idx].is_voicevox_vocal()
        } else {
            false
        }
    }

    /// Whether the track at place `track_idx` follows the transposition; false if
    /// there is none.
    pub fn follows_transpose(&self, track_idx: usize) -> (r: bool)
        ensures
            r == (track_idx < self.of().tracks.len() && transpose::follows(
                self.of().tracks,
                self.of().tracks[track_idx as int].id,
            )),
    {
        proof {
            use_type_invariant(self);
        }
        if track_idx < self.tracks.len() {
            assert(self.tracks@[track_idx as int].follows() == transpose::follows(
                self.of@.tracks,
                self.of@.tracks[track_idx as int].id,
            ));
            self.tracks[track_idx].follows_transpose()
        } else {
            false
        }
    }

    /// The first send with id `send_id` of the track at place `track_idx`. In another song
    /// than that of the index, the send at its place.
    pub fn send<'a>(&self, song: &'a Song, track_idx: usize, send_id: u32) -> (r: Option<&'a Send>)
        ensures
            found_send(self.of(), song@, track_idx as int, send_id) == match r {
                Some(s) => Some(*s),
                None => None,
            },
            self.of() == song@ && track_idx < song@.tracks.len() ==> match r {
                Some(s) => ids::place(track_ids::send_ids(song@.tracks[track_idx as int].sends), send_id) matches Some(
                    i,
                ) && *s == song@.tracks[track_idx as int].sends[i],
                None => ids::place(track_ids::send_ids(song@.tracks[track_idx as int].sends), send_id) is None,
            },
    {
        proof {
            use_type_invariant(self);
        }
        if track_idx >= song.tracks.len() || track_idx >= self.tracks.len() {
            return None;
        }
        assert(song@.tracks[track_idx as int] == song.tracks@[track_idx as int]@);
        assert(self.tracks@[track_idx as int].of() == self.of@.tracks[track_idx as int]);
        match self.tracks[track_idx].send_pos(send_id) {
            Some(i) => if i < song.tracks[track_idx].sends.len() {
                Some(&song.tracks[track_idx].sends[i])
            } else {
                None
            },
            None => None,
        }
    }

    /// The clips of the track at place `track_idx`.
    pub fn track_clips(&self, track_idx: usize) -> (r: Option<&RangeIndex>)
        ensures
            r is Some == (track_idx < self.of().tracks.len()),
            r matches Some(c) ==> c.of() == tracks::clip_ranges(self.of().tracks[track_idx as int].clips),
    {
        proof {
            use_type_invariant(self);
        }
        if track_idx < self.tracks.len() {
            assert(self.tracks@[track_idx as int].of() == self.of@.tracks[track_idx as int]);
            Some(self.tracks[track_idx].clips())
        } else {
            None
        }
    }

    /// The first cell of the track at place `track_idx` whose clip has id
    /// `clip_id`. In another song than that of the index, the cell at its place.
    pub fn track_cell<'a>(&'a self, song: &'a Song, track_idx: usize, clip_id: u32) -> (r: Option<&'a SessionClip>)
        ensures
            found_cell(self.of(), song@, track_idx as int, clip_id) == match r {
                Some(c) => Some(*c),
                None => None,
            },
            self.of() == song@ && track_idx < song@.tracks.len() ==> match r {
                Some(c) => ids::place(
                    cells::track_clip_ids(song@.tracks[track_idx as int].session_clips),
                    clip_id,
                ) matches Some(i) && *c == song@.tracks[track_idx as int].session_clips[i],
                None => ids::place(
                    cells::track_clip_ids(song@.tracks[track_idx as int].session_clips),
                    clip_id,
                ) is None,
            },
    {
        match self.track_cells(song, track_idx) {
            Some(cells) => {
                assert(song@.tracks[track_idx as int] == song.tracks@[track_idx as int]@);
                match cells.clip_pos(clip_id) {
                    Some(i) => Some(&song.tracks[track_idx].session_clips[i]),
                    None => None,
                }
            },
            None => None,
        }
    }

    /// The notes or texts of the content with id `content_id`.
    pub fn content_ranges(&self, content_id: u32) -> (r: Option<&RangeIndex>)
        ensures
            match r {
                Some(index) => content_ranges_of(self.of().clip_contents, content_id) == Some(index.of()),
                None => content_ranges_of(self.of().clip_contents, content_id) is None,
            },
    {
        proof {
            use_type_invariant(self);
            positions::lemma_id_place(ids_of_contents(self.of@.clip_contents), content_id, 0);
        }
        match self.content_pos.find(content_id as u128) {
            Some(i) => {
                assert(indexes_content(self.contents@[i as int], self.of@.clip_contents[i as int].1));
                match &self.contents[i] {
                    Some(index) => Some(index),
                    None => None,
                }
            },
            None => None,
        }
    }

    /// The first device with id `id`, as [`Song::device_by_id`] finds it. In another song
    /// than that of the index, the device at its place, if it has the id.
    pub fn device<'a>(&self, song: &'a Song, id: u64) -> (r: Option<&'a Device>)
        ensures
            nodes::found_device(nodes::song_lists(self.of()), song@, id) == match r {
                Some(d) => Some(d@),
                None => None,
            },
            r matches Some(d) ==> d@.id() == id,
            self.of() == song@ ==> song@.device(id) == match r {
                Some(d) => Some(d@),
                None => None,
            },
    {
        proof {
            use_type_invariant(self);
        }
        self.nodes.device(song, id)
    }

    /// The first device with id `id`, if it is a rack. In another song than that of the
    /// index, the rack at its place, if it has the id.
    pub fn parallel<'a>(&self, song: &'a Song, id: u64) -> (r: Option<&'a Parallel>)
        ensures
            match r {
                Some(p) => p.id == id && nodes::found_device(nodes::song_lists(self.of()), song@, id) == Some(
                    (DeviceModel::Parallel { id: p.id, chains: device::chain_models(p.chains@) }),
                ),
                None => !(nodes::found_device(nodes::song_lists(self.of()), song@, id) matches Some(
                    DeviceModel::Parallel { id: _, chains: _ },
                )),
            },
            self.of() == song@ ==> match r {
                Some(p) => song@.device(id) == Some(
                    (DeviceModel::Parallel { id: p.id, chains: device::chain_models(p.chains@) }),
                ),
                None => !(song@.device(id) matches Some(DeviceModel::Parallel { id: _, chains: _ })),
            },
    {
        match self.device(song, id) {
            Some(Device::Parallel(p)) => Some(p),
            _ => None,
        }
    }

    /// The first native device with id `id` in the chain that belongs to
    /// `owner`. In another song than that of the index, the one at its place, if it has
    /// the id.
    pub fn native_in<'a>(&self, song: &'a Song, owner: ParamStoreAt, id: u64) -> (r: Option<&'a NativeDevice>)
        ensures
            ({
                let track = match owner {
                    ParamStoreAt::Song => None,
                    ParamStoreAt::Track(i) => Some(i as usize),
                };
                let found = match r {
                    Some(n) => Some(*n),
                    None => None,
                };
                &&& nodes::found_native(nodes::song_lists(self.of()), song@, track, id) == found
                &&& self.of() == song@ ==> song@.native_in(track, id) == found
            }),
            r matches Some(n) ==> n.id == id,
    {
        proof {
            use_type_invariant(self);
        }
        match owner {
            ParamStoreAt::Song => self.nodes.native_in(song, None, id),
            ParamStoreAt::Track(i) => self.nodes.native_in(song, Some(i as usize), id),
        }
    }

    /// The chain with id `chain_id` of the rack with id `parallel_id`. In another song
    /// than that of the index, the chain at its place, if both have these ids.
    pub fn chain_in<'a>(&self, song: &'a Song, parallel_id: u64, chain_id: u64) -> (r: Option<&'a ParallelChain>)
        ensures
            nodes::found_chain(nodes::song_lists(self.of()), song@, parallel_id, chain_id) == match r {
                Some(c) => Some(c@),
                None => None,
            },
            r matches Some(c) ==> c@.id == chain_id,
            self.of() == song@ ==> song@.chain_in(parallel_id, chain_id) == match r {
                Some(c) => Some(c@),
                None => None,
            },
    {
        proof {
            use_type_invariant(self);
        }
        self.nodes.chain_in(song, parallel_id, chain_id)
    }

    /// The cells of the track at place `track_idx`.
    pub fn track_cells<'a>(&'a self, song: &'a Song, track_idx: usize) -> (r: Option<SessionCells<'a>>)
        ensures
            r is Some == (track_idx < song@.tracks.len()),
            r matches Some(c) ==> c.cells == CellSlice::Track(&song.tracks@[track_idx as int].session_clips)
                && launcher::are_known(c, self.of(), RowAt::Track(track_idx)),
            self.of() == song@ ==> (r matches Some(c) ==> c.indexed()),
    {
        self.cells_at(song, RowAt::Track(track_idx))
    }

    /// The cells of the lane at place `lane_idx` of those kept at `at`.
    pub fn lane_cells<'a>(&'a self, song: &'a Song, at: ParamStoreAt, lane_idx: usize) -> (r: Option<
        SessionCells<'a>,
    >)
        ensures
            r is Some == match at {
                ParamStoreAt::Song => lane_idx < song@.song_lanes.len(),
                ParamStoreAt::Track(i) => i < song@.tracks.len() && lane_idx
                    < song@.tracks[i as int].automation_lanes.len(),
            },
            r matches Some(c) ==> match at {
                ParamStoreAt::Song => c.cells == CellSlice::Lane(&song.song_lanes@[lane_idx as int].session_clips)
                    && launcher::are_known(c, self.of(), RowAt::SongLane(lane_idx)),
                ParamStoreAt::Track(i) => c.cells == CellSlice::Lane(
                    &song.tracks@[i as int].automation_lanes@[lane_idx as int].session_clips,
                ) && launcher::are_known(c, self.of(), RowAt::TrackLane(i as usize, lane_idx)),
            },
            self.of() == song@ ==> (r matches Some(c) ==> c.indexed()),
    {
        match at {
            ParamStoreAt::Song => self.cells_at(song, RowAt::SongLane(lane_idx)),
            ParamStoreAt::Track(i) => self.cells_at(song, RowAt::TrackLane(i as usize, lane_idx)),
        }
    }

    /// The cells of the row at a place.
    fn cells_at<'a>(&'a self, song: &'a Song, at: RowAt) -> (r: Option<SessionCells<'a>>)
        ensures
            r is Some == launcher::is_in(song@, at),
            r matches Some(c) ==> launcher::are_cells_of(c.cells, song@, at) && launcher::are_known(c, self.of(), at)
                && match at {
                RowAt::Track(t) => c.cells == CellSlice::Track(&song.tracks@[t as int].session_clips),
                RowAt::TrackLane(t, l) => c.cells == CellSlice::Lane(
                    &song.tracks@[t as int].automation_lanes@[l as int].session_clips,
                ),
                RowAt::SongLane(l) => c.cells == CellSlice::Lane(&song.song_lanes@[l as int].session_clips),
            },
            self.of() == song@ ==> (r matches Some(c) ==> c.indexed()),
    {
        proof {
            use_type_invariant(self);
        }
        launcher::cells_at(song, &self.tracks, &self.song, at, Ghost(self.of@))
    }

    /// How many rows the launcher has.
    pub fn launcher_row_count(&self) -> (r: usize)
        ensures
            r == launcher::rows_of(self.of()).len(),
    {
        proof {
            use_type_invariant(self);
        }
        self.launcher.row_count()
    }

    /// The key of the row at place `i`: the ids of its track and of its lane.
    pub fn launcher_row_key(&self, i: usize) -> (r: Option<(u32, u32)>)
        ensures
            r == if i < launcher::rows_of(self.of()).len() {
                Some((launcher::rows_of(self.of())[i as int].track_id, launcher::rows_of(self.of())[i as int].lane_id))
            } else {
                None
            },
    {
        proof {
            use_type_invariant(self);
        }
        match self.launcher.row(i) {
            Some((track_id, lane_id, _)) => Some((track_id, lane_id)),
            None => None,
        }
    }

    /// The row at place `i`. In another song than that of the index, what is at its place
    /// now; none if there is nothing.
    pub fn launcher_row<'a>(&'a self, song: &'a Song, i: usize) -> (r: Option<LauncherRow<'a>>)
        ensures
            r is Some == (i < launcher::rows_of(self.of()).len() && launcher::is_in(
                song@,
                launcher::rows_of(self.of())[i as int].at,
            )),
            r matches Some(row) ==> ({
                let m = launcher::rows_of(self.of())[i as int];
                &&& row.track_id == m.track_id
                &&& row.lane_id == m.lane_id
                &&& launcher::are_cells_of(row.cells.cells, song@, m.at)
                &&& launcher::are_known(row.cells, self.of(), m.at)
                &&& row.saved == launcher::row_saved(song@, m.at)
            }),
            self.of() == song@ ==> r is Some == (i < launcher::rows_of(song@).len()) && (r matches Some(row)
                ==> row.cells.indexed()),
    {
        proof {
            use_type_invariant(self);
        }
        let (track_id, lane_id, at) = match self.launcher.row(i) {
            Some(row) => row,
            None => {
                return None;
            },
        };
        let cells = match self.cells_at(song, at) {
            Some(cells) => cells,
            None => {
                return None;
            },
        };
        let saved = match at {
            RowAt::Track(t) => {
                assert(song@.tracks[t as int] == song.tracks@[t as int]@);
                song.tracks[t].launcher
            },
            RowAt::TrackLane(t, l) => {
                assert(song@.tracks[t as int] == song.tracks@[t as int]@);
                let lanes = &song.tracks[t].automation_lanes;
                assert(song@.tracks[t as int].automation_lanes[l as int] == lanes@[l as int]@);
                lanes[l].launcher
            },
            RowAt::SongLane(l) => {
                assert(song@.song_lanes[l as int] == song.song_lanes@[l as int]@);
                song.song_lanes[l].launcher
            },
        };
        Some(LauncherRow { track_id, lane_id, cells, saved })
    }

    /// The place of the first row with the key `(track_id, lane_id)`.
    pub fn launcher_row_pos(&self, track_id: u32, lane_id: u32) -> (r: Option<usize>)
        ensures
            match r {
                Some(i) => i < launcher::rows_of(self.of()).len() && positions::place(
                    launcher::row_keys(launcher::rows_of(self.of())),
                    positions::pair_key(track_id, lane_id),
                ) == Some(i as int),
                None => positions::place(
                    launcher::row_keys(launcher::rows_of(self.of())),
                    positions::pair_key(track_id, lane_id),
                ) is None,
            },
    {
        proof {
            use_type_invariant(self);
        }
        self.launcher.row_pos(track_id, lane_id)
    }

    /// The length of the longest cell of a scene, where of each row the first
    /// cell of the scene counts. None if no row has one.
    pub fn scene_longest(&self, scene_id: u32) -> (r: Option<Beat>)
        ensures
            r == launcher::longest(self.of(), launcher::rows_of(self.of()), scene_id),
    {
        proof {
            use_type_invariant(self);
        }
        self.launcher.scene_longest(scene_id)
    }
}

} // verus!
