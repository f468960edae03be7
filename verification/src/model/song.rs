//! The song itself.

use super::automation::{AutomationLane, LaneModel, ModRouting};
use super::clip::{ClipContent, ContentModel};
use super::device;
use super::device::{copy_devices, Device, DeviceModel};
use crate::model;
use super::track::{copy_lanes, Track, TrackModel};
use vstd::prelude::*;

verus! {

/// A column of the launcher.
#[derive(Clone, Copy, Debug, PartialEq, Eq, Structural)]
pub struct Scene {
    pub id: u32,
}

impl Scene {
    /// The column with id `id`.
    pub fn new(id: u32) -> (r: Scene)
        ensures
            r.id == id,
    {
        Scene { id }
    }
}

/// A song.
#[derive(Debug)]
pub struct Song {
    pub tracks: Vec<Track>,
    /// The device chain of the master bus.
    pub master_fx_chain: Vec<Device>,
    /// The lanes of the master bus, the tempo and the transposition.
    pub song_lanes: Vec<AutomationLane>,
    pub song_mod_routings: Vec<ModRouting>,
    pub scenes: Vec<Scene>,
    /// The contents that clips show, by content id. An id is there once, see
    /// [`SongModel::contents_once`].
    pub clip_contents: Vec<(u32, ClipContent)>,
    /// Global transposition in semitones.
    pub transpose: i8,
}

/// The model of a song.
#[verifier::ext_equal]
pub struct SongModel {
    pub tracks: Seq<TrackModel>,
    pub master_fx_chain: Seq<DeviceModel>,
    pub song_lanes: Seq<LaneModel>,
    pub song_mod_routings: Seq<ModRouting>,
    pub scenes: Seq<Scene>,
    pub clip_contents: Seq<(u32, ContentModel)>,
    pub transpose: i8,
}

impl SongModel {
    /// Whether every content has an id of its own.
    pub open spec fn contents_once(self) -> bool {
        forall|i: int, j: int|
            0 <= i < j < self.clip_contents.len() ==> (#[trigger] self.clip_contents[i]).0
                != (#[trigger] self.clip_contents[j]).0
    }
}

/// The models of the contents of a song.
pub open spec fn content_models(contents: Seq<(u32, ClipContent)>) -> Seq<(u32, ContentModel)> {
    Seq::new(contents.len(), |i: int| (contents[i].0, contents[i].1@))
}

impl View for Song {
    type V = SongModel;

    open spec fn view(&self) -> SongModel {
        SongModel {
            tracks: model::models(self.tracks@),
            master_fx_chain: device::device_models(self.master_fx_chain@),
            song_lanes: model::models(self.song_lanes@),
            song_mod_routings: self.song_mod_routings@,
            scenes: self.scenes@,
            clip_contents: content_models(self.clip_contents@),
            transpose: self.transpose,
        }
    }
}

/// A song with nothing in it.
pub open spec fn empty_song() -> SongModel {
    SongModel {
        tracks: Seq::empty(),
        master_fx_chain: Seq::empty(),
        song_lanes: Seq::empty(),
        song_mod_routings: Seq::empty(),
        scenes: Seq::empty(),
        clip_contents: Seq::empty(),
        transpose: 0,
    }
}

impl Default for Song {
    fn default() -> (r: Song)
        ensures
            r@ == empty_song(),
            r@.contents_once(),
    {
        let r = Song {
            tracks: Vec::new(),
            master_fx_chain: Vec::new(),
            song_lanes: Vec::new(),
            song_mod_routings: Vec::new(),
            scenes: Vec::new(),
            clip_contents: Vec::new(),
            transpose: 0,
        };
        assert(r@ =~= empty_song());
        r
    }
}

impl Clone for Song {
    fn clone(&self) -> (r: Song)
        ensures
            r@ == self@,
    {
        let mut tracks: Vec<Track> = Vec::new();
        let mut i: usize = 0;
        while i < self.tracks.len()
            invariant
                i <= self.tracks@.len(),
                tracks@.len() == i,
                forall|k: int| 0 <= k < i ==> (#[trigger] tracks@[k])@ == self.tracks@[k]@,
            decreases self.tracks@.len() - i,
        {
            tracks.push(self.tracks[i].clone());
            i += 1;
        }
        let mut clip_contents: Vec<(u32, ClipContent)> = Vec::new();
        let mut j: usize = 0;
        while j < self.clip_contents.len()
            invariant
                j <= self.clip_contents@.len(),
                clip_contents@.len() == j,
                forall|k: int|
                    0 <= k < j ==> (#[trigger] clip_contents@[k]).0 == self.clip_contents@[k].0 && clip_contents@[k].1@
                        == self.clip_contents@[k].1@,
            decreases self.clip_contents@.len() - j,
        {
            clip_contents.push((self.clip_contents[j].0, self.clip_contents[j].1.clone()));
            j += 1;
        }
        let r = Song {
            tracks,
            master_fx_chain: copy_devices(&self.master_fx_chain),
            song_lanes: copy_lanes(&self.song_lanes),
            song_mod_routings: self.song_mod_routings.clone(),
            scenes: self.scenes.clone(),
            clip_contents,
            transpose: self.transpose,
        };
        assert(r@ =~= self@);
        r
    }
}

} // verus!
