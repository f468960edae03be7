//! Whether the tempo of a song changes.

use crate::model;
use crate::model::{AutomationTarget, Song};
use vstd::prelude::*;

verus! {

/// Whether a lane of the song moves its tempo.
pub fn has_tempo_automation(song: &Song) -> (r: bool)
    ensures
        r == exists|i: int|
            0 <= i < song@.song_lanes.len() && (#[trigger] song@.song_lanes[i]).enabled && song@.song_lanes[i].target
                == AutomationTarget::SongTempo,
{
    let mut i: usize = 0;
    while i < song.song_lanes.len()
        invariant
            i <= song.song_lanes@.len(),
            forall|k: int|
                0 <= k < i ==> !((#[trigger] song@.song_lanes[k]).enabled && song@.song_lanes[k].target
                    == AutomationTarget::SongTempo),
        decreases song.song_lanes@.len() - i,
    {
        let lane = &song.song_lanes[i];
        assert(song@.song_lanes[i as int] == lane@);
        if lane.enabled && matches!(lane.target, AutomationTarget::SongTempo) {
            return true;
        }
        i += 1;
    }
    false
}

} // verus!
