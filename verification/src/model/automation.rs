//! Automation lanes and modulation routings.

use super::channel_strip::{CompParam, EqBand, EqParam};
use super::device::NativeKind;
use crate::beat::Beat;
use vstd::prelude::*;

verus! {

/// What a track itself lets be automated.
#[derive(Clone, Copy, Debug, PartialEq, Eq, Hash, Structural)]
pub enum TrackBuiltinParam {
    Volume,
    Pan,
    Mute,
    SendGain { send_id: u32 },
    ChainGain { chain_id: u64 },
    ChainPan { chain_id: u64 },
    ParallelOutGain { parallel_id: u64 },
    ParallelSplitFreq { parallel_id: u64, index: u32 },
    ParallelSelect { parallel_id: u64 },
}

/// What the limiter on the master bus lets be automated.
#[derive(Clone, Copy, Debug, PartialEq, Eq, Hash, Structural)]
pub enum MasterLimiterParam {
    On,
    Ceiling,
}

/// The address of a parameter inside a native device.
#[derive(Clone, Copy, Debug, PartialEq, Eq, Hash, Structural)]
pub enum NativeParamId {
    /// The switch of the device.
    On(NativeKind),
    Comp(CompParam),
    Eq { band: EqBand, param: EqParam },
    BusComp(CompParam),
    /// A band of the tone equaliser, by its place.
    ToneEq(u32),
}

/// A parameter that a lane or a routing moves.
#[derive(Clone, Copy, Debug, PartialEq, Eq, Hash, Structural)]
pub enum AutomationTarget {
    TrackBuiltin(TrackBuiltinParam),
    PluginParam { device_id: u64, param_id: u32 },
    NativeParam { device_id: u64, param: NativeParamId },
    MasterLimiter(MasterLimiterParam),
    SongTempo,
    SongTimeSigNumerator,
    SongTranspose,
    ModSourceParam { source_id: u32, source_param: u32 },
    ModRoutingDepth { routing_id: u32 },
    ImageBuiltin(u32),
    TextBuiltin(u32),
    GroupTransform(u32),
}

impl AutomationTarget {
    /// Whether lanes of this target have launcher cells: all but the tempo and
    /// the time signature.
    pub open spec fn spec_accepts_launcher_cells(self) -> bool {
        self != AutomationTarget::SongTempo && self != AutomationTarget::SongTimeSigNumerator
    }

    /// Whether lanes of this target have launcher cells: all but the tempo and
    /// the time signature.
    #[verifier::when_used_as_spec(spec_accepts_launcher_cells)]
    pub fn accepts_launcher_cells(self) -> (r: bool)
        ensures
            r == self.spec_accepts_launcher_cells(),
    {
        !matches!(self, AutomationTarget::SongTempo | AutomationTarget::SongTimeSigNumerator)
    }
}

/// A clip of a lane.
#[derive(Clone, Copy, Debug, PartialEq, Eq, Structural)]
pub struct AutomationClip {
    /// Stable within the lane; zero is not yet assigned.
    pub id: u32,
    pub start_beat: Beat,
    pub length_beats: Beat,
    /// Where the clip ends: its start plus its length.
    pub end_beat: Beat,
    pub content_id: u32,
    /// Where in the content the clip starts.
    pub content_offset_beats: Beat,
}

/// A clip of a lane in a launcher cell.
#[derive(Clone, Copy, Debug, PartialEq, Eq, Structural)]
pub struct SessionAutomationClip {
    /// The column of the cell.
    pub scene_id: u32,
    pub clip: AutomationClip,
}

/// Who plays a row.
#[derive(Clone, Copy, Debug, PartialEq, Eq, Structural)]
pub enum RowPlayback {
    /// The arrangement.
    Arrangement,
    /// The launcher, playing a cell.
    Launcher { clip_id: u32 },
    /// The launcher, silent.
    LauncherStopped,
}

/// A lane that moves one parameter.
#[derive(Debug)]
pub struct AutomationLane {
    /// Stable within its store; zero is not yet assigned.
    pub id: u32,
    pub target: AutomationTarget,
    pub enabled: bool,
    /// The value outside every clip, as the bit pattern of a double.
    pub default_value: u64,
    pub clips: Vec<AutomationClip>,
    pub next_clip_id: u32,
    pub session_clips: Vec<SessionAutomationClip>,
    pub launcher: RowPlayback,
}

/// The model of a lane.
#[verifier::ext_equal]
pub struct LaneModel {
    pub id: u32,
    pub target: AutomationTarget,
    pub enabled: bool,
    pub default_value: u64,
    pub clips: Seq<AutomationClip>,
    pub next_clip_id: u32,
    pub session_clips: Seq<SessionAutomationClip>,
    pub launcher: RowPlayback,
}

impl View for AutomationLane {
    type V = LaneModel;

    open spec fn view(&self) -> LaneModel {
        LaneModel {
            id: self.id,
            target: self.target,
            enabled: self.enabled,
            default_value: self.default_value,
            clips: self.clips@,
            next_clip_id: self.next_clip_id,
            session_clips: self.session_clips@,
            launcher: self.launcher,
        }
    }
}

impl Clone for AutomationLane {
    fn clone(&self) -> (r: AutomationLane)
        ensures
            r@ == self@,
    {
        let r = AutomationLane {
            id: self.id,
            target: self.target,
            enabled: self.enabled,
            default_value: self.default_value,
            clips: self.clips.clone(),
            next_clip_id: self.next_clip_id,
            session_clips: self.session_clips.clone(),
            launcher: self.launcher,
        };
        assert(r.clips@ =~= self.clips@);
        assert(r.session_clips@ =~= self.session_clips@);
        r
    }
}

impl AutomationLane {
    /// An enabled lane for `target` with no clip, resting at `default_value`.
    pub fn new(target: AutomationTarget, default_value: u64) -> (r: AutomationLane)
        ensures
            r@ == (LaneModel {
                id: 0,
                target,
                enabled: true,
                default_value,
                clips: Seq::empty(),
                next_clip_id: 1,
                session_clips: Seq::empty(),
                launcher: RowPlayback::Arrangement,
            }),
    {
        AutomationLane {
            id: 0,
            target,
            enabled: true,
            default_value,
            clips: Vec::new(),
            next_clip_id: 1,
            session_clips: Vec::new(),
            launcher: RowPlayback::Arrangement,
        }
    }
}

/// Where parameters are kept: with the song, or with the track at a place.
#[derive(Clone, Copy, Debug, PartialEq, Eq, Structural)]
pub enum ParamStoreAt {
    Song,
    Track(u32),
}

/// A modulation source moving one parameter.
#[derive(Clone, Copy, Debug, PartialEq, Eq, Structural)]
pub struct ModRouting {
    pub id: u32,
    pub target: AutomationTarget,
    pub source_id: u32,
    /// How far the source moves the parameter, as the bit pattern of a float.
    pub depth: u32,
    pub enabled: bool,
}

/// A modulation source.
#[derive(Clone, Copy, Debug, PartialEq, Eq, Structural)]
pub struct ModSource {
    pub id: u32,
    /// The track it belongs to; zero for sources that belong to none.
    pub owner_track_id: u32,
    pub enabled: bool,
}

} // verus!
