//! Launcher cells by clip and by scene.

use crate::beat::Beat;
use crate::model::ids;
use crate::model::{SessionAutomationClip, SessionClip};
use super::positions;
use super::positions::PositionIndex;
use vstd::prelude::*;

verus! {

/// The cells of a row: those of a track, or those of a lane.
#[derive(Clone, Copy, Debug)]
pub enum CellSlice<'a> {
    Track(&'a Vec<SessionClip>),
    Lane(&'a Vec<SessionAutomationClip>),
}

impl<'a> CellSlice<'a> {
    /// The ids of the clips in the cells.
    pub open spec fn clip_ids(self) -> Seq<u32> {
        match self {
            CellSlice::Track(v) => track_clip_ids(v@),
            CellSlice::Lane(v) => lane_clip_ids(v@),
        }
    }

    /// The scenes of the cells.
    pub open spec fn scene_ids(self) -> Seq<u32> {
        match self {
            CellSlice::Track(v) => track_scene_ids(v@),
            CellSlice::Lane(v) => lane_scene_ids(v@),
        }
    }

    /// The lengths of the clips in the cells.
    pub open spec fn lengths(self) -> Seq<Beat> {
        match self {
            CellSlice::Track(v) => track_lengths(v@),
            CellSlice::Lane(v) => lane_lengths(v@),
        }
    }

    /// How many cells there are.
    pub fn len(self) -> (r: usize)
        ensures
            r == self.clip_ids().len(),
            r == self.scene_ids().len(),
            r == self.lengths().len(),
    {
        match self {
            CellSlice::Track(v) => v.len(),
            CellSlice::Lane(v) => v.len(),
        }
    }
}

pub open spec fn track_clip_ids(v: Seq<SessionClip>) -> Seq<u32> {
    v.map_values(|c: SessionClip| c.clip.id)
}

pub open spec fn track_scene_ids(v: Seq<SessionClip>) -> Seq<u32> {
    v.map_values(|c: SessionClip| c.scene_id)
}

pub open spec fn track_lengths(v: Seq<SessionClip>) -> Seq<Beat> {
    v.map_values(|c: SessionClip| c.clip.length_beats)
}

pub open spec fn lane_clip_ids(v: Seq<SessionAutomationClip>) -> Seq<u32> {
    v.map_values(|c: SessionAutomationClip| c.clip.id)
}

pub open spec fn lane_scene_ids(v: Seq<SessionAutomationClip>) -> Seq<u32> {
    v.map_values(|c: SessionAutomationClip| c.scene_id)
}

pub open spec fn lane_lengths(v: Seq<SessionAutomationClip>) -> Seq<Beat> {
    v.map_values(|c: SessionAutomationClip| c.clip.length_beats)
}

/// The cells of a row, by the id of their clip and by their scene.
pub struct CellIndex {
    n_cells: usize,
    by_clip: PositionIndex,
    by_scene: PositionIndex,
    clips: Ghost<Seq<u32>>,
    scenes: Ghost<Seq<u32>>,
}

impl CellIndex {
    /// The ids of the clips that this is the index of.
    pub closed spec fn clips(self) -> Seq<u32> {
        self.clips@
    }

    /// The scenes that this is the index of.
    pub closed spec fn scenes(self) -> Seq<u32> {
        self.scenes@
    }

    #[verifier::type_invariant]
    spec fn inv(self) -> bool {
        &&& self.n_cells == self.clips@.len()
        &&& self.n_cells == self.scenes@.len()
        &&& self.by_clip.of() == positions::id_keys(self.clips@)
        &&& self.by_scene.of() == positions::id_keys(self.scenes@)
    }

    /// Whether this is the index of the given cells.
    pub open spec fn is_of(self, cells: CellSlice<'_>) -> bool {
        self.clips() == cells.clip_ids() && self.scenes() == cells.scene_ids()
    }

    /// The index of cells.
    pub fn build(cells: CellSlice<'_>) -> (r: CellIndex)
        ensures
            r.is_of(cells),
    {
        let mut clips: Vec<u128> = Vec::new();
        let mut scenes: Vec<u128> = Vec::new();
        let n: usize = cells.len();
        let mut i: usize = 0;
        while i < n
            invariant
                n == cells.clip_ids().len(),
                n == cells.scene_ids().len(),
                i <= n,
                clips@.len() == i,
                scenes@.len() == i,
                forall|k: int| 0 <= k < i ==> #[trigger] clips@[k] == cells.clip_ids()[k] as u128,
                forall|k: int| 0 <= k < i ==> #[trigger] scenes@[k] == cells.scene_ids()[k] as u128,
            decreases n - i,
        {
            match cells {
                CellSlice::Track(v) => {
                    clips.push(v[i].clip.id as u128);
                    scenes.push(v[i].scene_id as u128);
                },
                CellSlice::Lane(v) => {
                    clips.push(v[i].clip.id as u128);
                    scenes.push(v[i].scene_id as u128);
                },
            }
            i += 1;
        }
        assert(clips@ =~= positions::id_keys(cells.clip_ids()));
        assert(scenes@ =~= positions::id_keys(cells.scene_ids()));
        CellIndex {
            n_cells: n,
            by_clip: PositionIndex::build(&clips),
            by_scene: PositionIndex::build(&scenes),
            clips: Ghost(cells.clip_ids()),
            scenes: Ghost(cells.scene_ids()),
        }
    }

    /// How many cells this is the index of.
    pub fn count(&self) -> (r: usize)
        ensures
            r == self.clips().len(),
    {
        proof {
            use_type_invariant(self);
        }
        self.n_cells
    }

    fn find_clip(&self, id: u32) -> (r: Option<usize>)
        ensures
            match r {
                Some(i) => i < self.clips().len() && ids::place(self.clips(), id) == Some(i as int),
                None => ids::place(self.clips(), id) is None,
            },
    {
        proof {
            use_type_invariant(self);
            positions::lemma_id_place(self.clips@, id, 0);
        }
        self.by_clip.find(id as u128)
    }

    fn find_scene(&self, id: u32) -> (r: Option<usize>)
        ensures
            match r {
                Some(i) => i < self.scenes().len() && ids::place(self.scenes(), id) == Some(i as int),
                None => ids::place(self.scenes(), id) is None,
            },
    {
        proof {
            use_type_invariant(self);
            positions::lemma_id_place(self.scenes@, id, 0);
        }
        self.by_scene.find(id as u128)
    }

    /// The scenes that have a cell.
    fn scene_list(&self) -> (r: Vec<u32>)
        ensures
            r@.no_duplicates(),
            forall|id: u32| #[trigger] r@.contains(id) <==> ids::place(self.scenes(), id) is Some,
    {
        proof {
            use_type_invariant(self);
        }
        let ghost keys = self.by_scene.of();
        let all = self.by_scene.keys();
        proof {
            assert forall|k: int| 0 <= k < all@.len() implies (#[trigger] all@[k]) <= u32::MAX by {
                assert(all@.contains(all@[k]));
                positions::lemma_place_from(keys, all@[k], 0);
            }
        }
        let mut r: Vec<u32> = Vec::new();
        let mut i: usize = 0;
        while i < all.len()
            invariant
                i <= all@.len(),
                r@.len() == i,
                forall|k: int| 0 <= k < all@.len() ==> (#[trigger] all@[k]) <= u32::MAX,
                forall|k: int| 0 <= k < i ==> #[trigger] r@[k] as u128 == all@[k],
            decreases all@.len() - i,
        {
            r.push(all[i] as u32);
            i += 1;
        }
        proof {
            assert forall|a: int, b: int| 0 <= a < r@.len() && 0 <= b < r@.len() && a != b implies r@[a] != r@[b] by {
                assert(all@[a] != all@[b]);
            }
            assert forall|id: u32| #[trigger] r@.contains(id) <==> ids::place(self.scenes@, id) is Some by {
                positions::lemma_id_place(self.scenes@, id, 0);
                if r@.contains(id) {
                    let k = choose|k: int| 0 <= k < r@.len() && r@[k] == id;
                    assert(all@.contains(all@[k]));
                    assert(all@[k] == id as u128);
                }
                if all@.contains(id as u128) {
                    let k = choose|k: int| 0 <= k < all@.len() && all@[k] == id as u128;
                    assert(r@[k] == id);
                }
            }
        }
        r
    }
}

/// The cells of a row with their index.
#[derive(Clone, Copy)]
pub struct SessionCells<'a> {
    pub cells: CellSlice<'a>,
    /// None if there is no index, or if it is one of another number of cells.
    pub index: Option<&'a CellIndex>,
}

impl<'a> SessionCells<'a> {
    /// Whether there is an index, and it is one of these cells.
    pub open spec fn indexed(self) -> bool {
        self.index matches Some(index) && index.is_of(self.cells)
    }

    /// The cells with the index of cells whose clips and scenes were these: with
    /// none if there were more or fewer.
    pub open spec fn indexed_as(self, clips: Seq<u32>, scenes: Seq<u32>) -> bool {
        match self.index {
            Some(index) => clips.len() == self.cells.clip_ids().len() && index.clips() == clips && index.scenes()
                == scenes,
            None => clips.len() != self.cells.clip_ids().len(),
        }
    }

    /// The ids of the clips that cells are found by.
    pub open spec fn known_clips(self) -> Seq<u32> {
        match self.index {
            Some(index) => index.clips(),
            None => Seq::empty(),
        }
    }

    /// The scenes that cells are found by.
    pub open spec fn known_scenes(self) -> Seq<u32> {
        match self.index {
            Some(index) => index.scenes(),
            None => Seq::empty(),
        }
    }

    /// The cells with their index. One of another number of cells is that of
    /// another song, and is not used.
    pub fn new(cells: CellSlice<'a>, index: &'a CellIndex) -> (r: SessionCells<'a>)
        ensures
            r.cells == cells,
            r.indexed_as(index.clips(), index.scenes()),
            index.is_of(cells) ==> r.indexed(),
    {
        if index.count() == cells.len() {
            SessionCells { cells, index: Some(index) }
        } else {
            SessionCells { cells, index: None }
        }
    }

    /// The place of the first cell whose clip has id `clip_id`.
    pub fn clip_pos(self, clip_id: u32) -> (r: Option<usize>)
        ensures
            match r {
                Some(i) => i < self.known_clips().len() && ids::place(self.known_clips(), clip_id) == Some(i as int),
                None => ids::place(self.known_clips(), clip_id) is None,
            },
    {
        match self.index {
            Some(index) => index.find_clip(clip_id),
            None => None,
        }
    }

    /// The place of the first cell of the scene `scene_id`.
    pub fn scene_pos(self, scene_id: u32) -> (r: Option<usize>)
        ensures
            match r {
                Some(i) => i < self.known_scenes().len() && ids::place(self.known_scenes(), scene_id) == Some(i as int),
                None => ids::place(self.known_scenes(), scene_id) is None,
            },
    {
        match self.index {
            Some(index) => index.find_scene(scene_id),
            None => None,
        }
    }

    /// The length of the cell at place `pos`.
    pub fn length_at(self, pos: usize) -> (r: Option<Beat>)
        ensures
            r == if pos < self.cells.lengths().len() {
                Some(self.cells.lengths()[pos as int])
            } else {
                None
            },
    {
        match self.cells {
            CellSlice::Track(v) => if pos < v.len() {
                Some(v[pos].clip.length_beats)
            } else {
                None
            },
            CellSlice::Lane(v) => if pos < v.len() {
                Some(v[pos].clip.length_beats)
            } else {
                None
            },
        }
    }

    /// The scenes that have a cell.
    pub fn scenes(self) -> (r: Vec<u32>)
        ensures
            r@.no_duplicates(),
            forall|id: u32| #[trigger] r@.contains(id) <==> ids::place(self.known_scenes(), id) is Some,
    {
        match self.index {
            Some(index) => index.scene_list(),
            None => Vec::new(),
        }
    }
}

} // verus!
