//! The index of one track.

use crate::beat::Beat;
use crate::model::ids;
use crate::model::track_ids;
use crate::model::{Clip, Send, Track, TrackModel};
use crate::plugin_db;
use super::cells;
use super::cells::{CellIndex, CellSlice};
use super::params::ParamStoreIndex;
use super::positions;
use super::positions::PositionIndex;
use super::ranges::RangeIndex;
use vstd::prelude::*;

verus! {

/// Clips as intervals, from where they start to where they end.
pub open spec fn clip_ranges(clips: Seq<Clip>) -> Seq<(Beat, Beat)> {
    clips.map_values(|c: Clip| (c.start_beat, c.end_beat))
}

/// The index of one track.
pub struct TrackIndex {
    store: ParamStoreIndex,
    voicevox_vocal: bool,
    enabled: bool,
    follows_transpose: bool,
    sends: PositionIndex,
    clips: RangeIndex,
    cells: CellIndex,
    of: Ghost<TrackModel>,
}

impl TrackIndex {
    /// The track that this is the index of.
    pub closed spec fn of(self) -> TrackModel {
        self.of@
    }

    /// Whether the track and every group above it are enabled.
    pub closed spec fn enabled(self) -> bool {
        self.enabled
    }

    /// Whether the track follows the transposition.
    pub closed spec fn follows(self) -> bool {
        self.follows_transpose
    }

    #[verifier::type_invariant]
    spec fn inv(self) -> bool {
        let t = self.of@;
        &&& self.store.lanes() == t.automation_lanes
        &&& self.store.routings() == t.mod_routings
        &&& self.voicevox_vocal == track_ids::has_builtin_plugin(t.devices, plugin_db::BUILTIN_ID_VOICEVOX@)
        &&& self.sends.of() == positions::id_keys(track_ids::send_ids(t.sends))
        &&& self.clips.of() == clip_ranges(t.clips)
        &&& self.cells.clips() == cells::track_clip_ids(t.session_clips)
        &&& self.cells.scenes() == cells::track_scene_ids(t.session_clips)
    }

    /// The index of a track, of which the caller knows whether it is enabled and
    /// whether it follows the transposition.
    pub fn build(t: &Track, enabled: bool, follows_transpose: bool) -> (r: TrackIndex)
        ensures
            r.of() == t@,
            r.enabled() == enabled,
            r.follows() == follows_transpose,
    {
        let mut send_keys: Vec<u128> = Vec::new();
        let mut i: usize = 0;
        while i < t.sends.len()
            invariant
                i <= t.sends@.len(),
                send_keys@.len() == i,
                forall|k: int| 0 <= k < i ==> #[trigger] send_keys@[k] == t.sends@[k].id as u128,
            decreases t.sends@.len() - i,
        {
            send_keys.push(t.sends[i].id as u128);
            i += 1;
        }
        assert(send_keys@ =~= positions::id_keys(track_ids::send_ids(t.sends@)));
        let mut intervals: Vec<(Beat, Beat)> = Vec::new();
        let mut j: usize = 0;
        while j < t.clips.len()
            invariant
                j <= t.clips@.len(),
                intervals@.len() == j,
                forall|k: int|
                    0 <= k < j ==> #[trigger] intervals@[k] == (t.clips@[k].start_beat, t.clips@[k].end_beat),
            decreases t.clips@.len() - j,
        {
            intervals.push((t.clips[j].start_beat, t.clips[j].end_beat));
            j += 1;
        }
        assert(intervals@ =~= clip_ranges(t.clips@));
        TrackIndex {
            store: ParamStoreIndex::build(&t.automation_lanes, &t.mod_routings),
            voicevox_vocal: t.is_voicevox_vocal(),
            enabled,
            follows_transpose,
            sends: PositionIndex::build(&send_keys),
            clips: RangeIndex::build(&intervals),
            cells: CellIndex::build(CellSlice::Track(&t.session_clips)),
            of: Ghost(t@),
        }
    }

    /// The lanes and routings of the track.
    pub fn store(&self) -> (r: &ParamStoreIndex)
        ensures
            r.lanes() == self.of().automation_lanes,
            r.routings() == self.of().mod_routings,
    {
        proof {
            use_type_invariant(self);
        }
        &self.store
    }

    /// Whether the track sings.
    pub fn is_voicevox_vocal(&self) -> (r: bool)
        ensures
            r == track_ids::has_builtin_plugin(self.of().devices, plugin_db::BUILTIN_ID_VOICEVOX@),
    {
        proof {
            use_type_invariant(self);
        }
        self.voicevox_vocal
    }

    /// Whether the track and every group above it are enabled.
    pub fn is_enabled(&self) -> (r: bool)
        ensures
            r == self.enabled(),
    {
        self.enabled
    }

    /// Whether the track follows the transposition.
    pub fn follows_transpose(&self) -> (r: bool)
        ensures
            r == self.follows(),
    {
        self.follows_transpose
    }

    /// The place of the first send with id `id`.
    pub fn send_pos(&self, id: u32) -> (r: Option<usize>)
        ensures
            match r {
                Some(i) => i < self.of().sends.len() && ids::place(track_ids::send_ids(self.of().sends), id) == Some(
                    i as int,
                ),
                None => ids::place(track_ids::send_ids(self.of().sends), id) is None,
            },
    {
        proof {
            use_type_invariant(self);
            positions::lemma_id_place(track_ids::send_ids(self.of@.sends), id, 0);
        }
        self.sends.find(id as u128)
    }

    /// The clips of the track.
    pub fn clips(&self) -> (r: &RangeIndex)
        ensures
            r.of() == clip_ranges(self.of().clips),
    {
        proof {
            use_type_invariant(self);
        }
        &self.clips
    }

    /// The cells of the track.
    pub fn cells(&self) -> (r: &CellIndex)
        ensures
            r.clips() == cells::track_clip_ids(self.of().session_clips),
            r.scenes() == cells::track_scene_ids(self.of().session_clips),
    {
        proof {
            use_type_invariant(self);
        }
        &self.cells
    }
}

} // verus!
