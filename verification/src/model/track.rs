//! Tracks and sends.

use super::automation::{AutomationLane, LaneModel, ModRouting, RowPlayback};
use super::clip::{Clip, SessionClip};
use super::device;
use super::device::{copy_devices, Device, DeviceModel};
use super::channel_strip::{N_0, N_0_5, N_1, N_2};
use crate::model;
use crate::setting::Setting;
use vstd::prelude::*;

verus! {

/// The highest gain of a track, the master bus or a send, as the bit pattern of a
/// float.
pub const MAX_TRACK_GAIN: u32 = N_2;

/// Where a send taps the source track.
#[derive(Clone, Copy, Debug, PartialEq, Eq, Structural)]
pub enum SendMode {
    /// After the fader: the send follows it.
    PostFader,
    /// After the devices and before the fader: the send does not follow it.
    PreFader,
}

impl Default for SendMode {
    fn default() -> (r: SendMode)
        ensures
            r == SendMode::PostFader,
    {
        SendMode::PostFader
    }
}

/// A scaled copy of a track's signal, summed into another track.
#[derive(Clone, Copy, Debug, PartialEq, Eq, Structural)]
pub struct Send {
    /// Stable within the track; zero is not yet assigned.
    pub id: u32,
    pub dest_track_id: u32,
    /// Linear gain, as the bit pattern of a float.
    pub gain: u32,
    pub mode: SendMode,
    pub enabled: bool,
}

/// What renders the notes of a track besides its devices.
#[derive(Debug)]
pub enum InstrumentSource {
    /// Nothing does.
    Unset,
    /// The track sings; the voice is chosen per clip.
    Vocal,
    Vst3 { path: String },
    BuiltinSynth,
}

/// The model of an instrument source.
#[verifier::ext_equal]
pub enum SourceModel {
    Unset,
    Vocal,
    Vst3 { path: Seq<char> },
    BuiltinSynth,
}

impl View for InstrumentSource {
    type V = SourceModel;

    open spec fn view(&self) -> SourceModel {
        match self {
            InstrumentSource::Unset => SourceModel::Unset,
            InstrumentSource::Vocal => SourceModel::Vocal,
            InstrumentSource::Vst3 { path } => SourceModel::Vst3 { path: path@ },
            InstrumentSource::BuiltinSynth => SourceModel::BuiltinSynth,
        }
    }
}

/// How the picture that the tracks of a group make up is placed: it is scaled and
/// turned about an anchor, and moved.
#[derive(Clone, Copy, Debug, PartialEq, Eq, Structural)]
pub struct GroupTransform {
    /// How far it is moved, in widths of the preview.
    pub x: Setting,
    /// How far it is moved, in heights of the preview.
    pub y: Setting,
    /// Clockwise.
    pub rotation_radians: Setting,
    pub scale_x: Setting,
    pub scale_y: Setting,
    /// From zero at the left to one at the right.
    pub anchor_x: Setting,
    /// From zero at the top to one at the bottom.
    pub anchor_y: Setting,
    /// From zero to one.
    pub opacity: Setting,
}

impl Default for GroupTransform {
    /// The picture as it is.
    fn default() -> (r: GroupTransform)
        ensures
            r == (GroupTransform {
                x: Setting { bits: N_0 },
                y: Setting { bits: N_0 },
                rotation_radians: Setting { bits: N_0 },
                scale_x: Setting { bits: N_1 },
                scale_y: Setting { bits: N_1 },
                anchor_x: Setting { bits: N_0_5 },
                anchor_y: Setting { bits: N_0_5 },
                opacity: Setting { bits: N_1 },
            }),
    {
        let nothing = Setting { bits: N_0 };
        let unit = Setting { bits: N_1 };
        let middle = Setting { bits: N_0_5 };
        GroupTransform {
            x: nothing,
            y: nothing,
            rotation_radians: nothing,
            scale_x: unit,
            scale_y: unit,
            anchor_x: middle,
            anchor_y: middle,
            opacity: unit,
        }
    }
}

/// One track of the song.
#[derive(Debug)]
pub struct Track {
    /// Stable within the song; zero is not yet assigned.
    pub id: u32,
    pub name: String,
    /// The device chain, in signal order.
    pub devices: Vec<Device>,
    /// Linear gain, up to [`MAX_TRACK_GAIN`].
    pub volume: Setting,
    /// From -1 at the left to 1 at the right.
    pub pan: Setting,
    pub muted: bool,
    pub solo: bool,
    pub armed: bool,
    /// Takes part in playback. See `Song::track_effectively_enabled`.
    pub enabled: bool,
    /// Follows the global transposition. See `Song::track_follows_transpose`.
    pub follow_transpose: bool,
    pub source: InstrumentSource,
    pub clips: Vec<Clip>,
    pub next_clip_id: u32,
    /// The track this one feeds; none is the master bus.
    pub parent_group_id: Option<u32>,
    pub sends: Vec<Send>,
    pub next_send_id: u32,
    pub automation_lanes: Vec<AutomationLane>,
    pub next_lane_id: u32,
    pub mod_routings: Vec<ModRouting>,
    pub session_clips: Vec<SessionClip>,
    pub launcher: RowPlayback,
    /// Red, green and blue, if they were chosen.
    pub color: Option<(Setting, Setting, Setting)>,
    /// How the picture of the group is placed, if it has one.
    pub group_transform: Option<GroupTransform>,
    /// The track whose mouth moves with what is sung here.
    pub lipsync_target_track: Option<u32>,
}

/// The model of a track.
#[verifier::ext_equal]
pub struct TrackModel {
    pub id: u32,
    pub name: Seq<char>,
    pub devices: Seq<DeviceModel>,
    pub volume: Setting,
    pub pan: Setting,
    pub muted: bool,
    pub solo: bool,
    pub armed: bool,
    pub enabled: bool,
    pub follow_transpose: bool,
    pub source: SourceModel,
    pub clips: Seq<Clip>,
    pub next_clip_id: u32,
    pub parent_group_id: Option<u32>,
    pub sends: Seq<Send>,
    pub next_send_id: u32,
    pub automation_lanes: Seq<LaneModel>,
    pub next_lane_id: u32,
    pub mod_routings: Seq<ModRouting>,
    pub session_clips: Seq<SessionClip>,
    pub launcher: RowPlayback,
    pub color: Option<(Setting, Setting, Setting)>,
    pub group_transform: Option<GroupTransform>,
    pub lipsync_target_track: Option<u32>,
}

impl View for Track {
    type V = TrackModel;

    open spec fn view(&self) -> TrackModel {
        TrackModel {
            id: self.id,
            name: self.name@,
            devices: device::device_models(self.devices@),
            volume: self.volume,
            pan: self.pan,
            muted: self.muted,
            solo: self.solo,
            armed: self.armed,
            enabled: self.enabled,
            follow_transpose: self.follow_transpose,
            source: self.source@,
            clips: self.clips@,
            next_clip_id: self.next_clip_id,
            parent_group_id: self.parent_group_id,
            sends: self.sends@,
            next_send_id: self.next_send_id,
            automation_lanes: model::models(self.automation_lanes@),
            next_lane_id: self.next_lane_id,
            mod_routings: self.mod_routings@,
            session_clips: self.session_clips@,
            launcher: self.launcher,
            color: self.color,
            group_transform: self.group_transform,
            lipsync_target_track: self.lipsync_target_track,
        }
    }
}

/// A track as it is before anything is put on it.
pub open spec fn empty_track() -> TrackModel {
    TrackModel {
        id: 0,
        name: Seq::empty(),
        devices: Seq::empty(),
        volume: Setting { bits: N_1 },
        pan: Setting { bits: N_0 },
        muted: false,
        solo: false,
        armed: false,
        enabled: true,
        follow_transpose: true,
        source: SourceModel::Unset,
        clips: Seq::empty(),
        next_clip_id: 1,
        parent_group_id: None,
        sends: Seq::empty(),
        next_send_id: 1,
        automation_lanes: Seq::empty(),
        next_lane_id: 1,
        mod_routings: Seq::empty(),
        session_clips: Seq::empty(),
        launcher: RowPlayback::Arrangement,
        color: None,
        group_transform: None,
        lipsync_target_track: None,
    }
}

impl Default for Track {
    fn default() -> (r: Track)
        ensures
            r@ == empty_track(),
    {
        let r = Track {
            id: 0,
            name: String::new(),
            devices: Vec::new(),
            volume: Setting { bits: N_1 },
            pan: Setting { bits: N_0 },
            muted: false,
            solo: false,
            armed: false,
            enabled: true,
            follow_transpose: true,
            source: InstrumentSource::Unset,
            clips: Vec::new(),
            next_clip_id: 1,
            parent_group_id: None,
            sends: Vec::new(),
            next_send_id: 1,
            automation_lanes: Vec::new(),
            next_lane_id: 1,
            mod_routings: Vec::new(),
            session_clips: Vec::new(),
            launcher: RowPlayback::Arrangement,
            color: None,
            group_transform: None,
            lipsync_target_track: None,
        };
        assert(r@ =~= empty_track());
        r
    }
}

impl Clone for InstrumentSource {
    fn clone(&self) -> (r: InstrumentSource)
        ensures
            r@ == self@,
    {
        match self {
            InstrumentSource::Unset => InstrumentSource::Unset,
            InstrumentSource::Vocal => InstrumentSource::Vocal,
            InstrumentSource::Vst3 { path } => InstrumentSource::Vst3 { path: path.clone() },
            InstrumentSource::BuiltinSynth => InstrumentSource::BuiltinSynth,
        }
    }
}

/// Copies of the lanes of a store.
pub fn copy_lanes(lanes: &Vec<AutomationLane>) -> (r: Vec<AutomationLane>)
    ensures
        model::models(r@) == model::models(lanes@),
{
    let mut r: Vec<AutomationLane> = Vec::new();
    let mut i: usize = 0;
    while i < lanes.len()
        invariant
            i <= lanes@.len(),
            r@.len() == i,
            forall|k: int| 0 <= k < i ==> (#[trigger] r@[k])@ == lanes@[k]@,
        decreases lanes@.len() - i,
    {
        r.push(lanes[i].clone());
        i += 1;
    }
    assert(model::models(r@) =~= model::models(lanes@));
    r
}

impl Clone for Track {
    fn clone(&self) -> (r: Track)
        ensures
            r@ == self@,
    {
        let r = Track {
            id: self.id,
            name: self.name.clone(),
            devices: copy_devices(&self.devices),
            volume: self.volume,
            pan: self.pan,
            muted: self.muted,
            solo: self.solo,
            armed: self.armed,
            enabled: self.enabled,
            follow_transpose: self.follow_transpose,
            source: self.source.clone(),
            clips: self.clips.clone(),
            next_clip_id: self.next_clip_id,
            parent_group_id: self.parent_group_id,
            sends: self.sends.clone(),
            next_send_id: self.next_send_id,
            automation_lanes: copy_lanes(&self.automation_lanes),
            next_lane_id: self.next_lane_id,
            mod_routings: self.mod_routings.clone(),
            session_clips: self.session_clips.clone(),
            launcher: self.launcher,
            color: self.color,
            group_transform: self.group_transform,
            lipsync_target_track: self.lipsync_target_track,
        };
        assert(r@ =~= self@);
        r
    }
}

} // verus!
