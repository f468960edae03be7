//! What the mixer sets on a track.

use vstd::prelude::*;

verus! {

/// What the mixer sets on a track. The volume and the pan are carried as the
/// bit patterns of floats.
#[derive(Clone, Copy, Debug, PartialEq, Eq, Structural)]
pub struct TrackAudioParams {
    volume: u32,
    pan: u32,
    muted: bool,
    solo: bool,
}

impl TrackAudioParams {
    /// The volume, the pan and the two switches.
    pub closed spec fn settings(self) -> (u32, u32, bool, bool) {
        (self.volume, self.pan, self.muted, self.solo)
    }

    /// What the mixer sets on a track.
    pub fn new(volume: u32, pan: u32, muted: bool, solo: bool) -> (r: TrackAudioParams)
        ensures
            r.settings() == (volume, pan, muted, solo),
    {
        TrackAudioParams { volume, pan, muted, solo }
    }

    /// The volume.
    pub fn volume(&self) -> (r: u32)
        ensures
            r == self.settings().0,
    {
        self.volume
    }

    /// The pan.
    pub fn pan(&self) -> (r: u32)
        ensures
            r == self.settings().1,
    {
        self.pan
    }

    /// Whether the track is muted.
    pub fn muted(&self) -> (r: bool)
        ensures
            r == self.settings().2,
    {
        self.muted
    }

    /// Whether the track is soloed.
    pub fn solo(&self) -> (r: bool)
        ensures
            r == self.settings().3,
    {
        self.solo
    }

    /// Sets the volume and nothing else.
    pub fn set_volume(&mut self, v: u32)
        ensures
            final(self).settings() == (v, old(self).settings().1, old(self).settings().2, old(self).settings().3),
    {
        self.volume = v;
    }

    /// Sets the pan and nothing else.
    pub fn set_pan(&mut self, v: u32)
        ensures
            final(self).settings() == (old(self).settings().0, v, old(self).settings().2, old(self).settings().3),
    {
        self.pan = v;
    }

    /// Mutes or unmutes, and nothing else.
    pub fn set_muted(&mut self, v: bool)
        ensures
            final(self).settings() == (old(self).settings().0, old(self).settings().1, v, old(self).settings().3),
    {
        self.muted = v;
    }

    /// Soloes or not, and nothing else.
    pub fn set_solo(&mut self, v: bool)
        ensures
            final(self).settings() == (old(self).settings().0, old(self).settings().1, old(self).settings().2, v),
    {
        self.solo = v;
    }
}

/// The bit pattern of the float one.
pub const UNITY: u32 = 0x3f80_0000;

impl Default for TrackAudioParams {
    /// Full volume in the middle.
    fn default() -> (r: TrackAudioParams)
        ensures
            r.settings() == (UNITY, 0u32, false, false),
    {
        TrackAudioParams::new(UNITY, 0, false, false)
    }
}

} // verus!
