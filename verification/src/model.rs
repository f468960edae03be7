//! The song: tracks, devices, automation and content.

pub mod automation;
pub mod channel_strip;
pub mod clip;
pub mod copy_laws;
pub mod crossfade;
pub mod device;
pub mod enable_laws;
pub mod ids;
pub mod lookup;
pub mod loop_region;
pub mod paste_laws;
pub mod plugin_laws;
pub mod song;
pub mod time_laws;
pub mod time_ops;
pub mod time_paste;
pub mod time_place;
pub mod time_selection;
pub mod time_shift;
pub mod track;
pub mod track_enable;
pub mod track_ids;
pub mod window_edit;
pub mod window_laws;

use vstd::prelude::*;

pub use automation::{
    AutomationClip, AutomationLane, AutomationTarget, LaneModel, MasterLimiterParam, ModRouting, ModSource,
    NativeParamId, ParamStoreAt, RowPlayback, SessionAutomationClip, TrackBuiltinParam,
};
pub use channel_strip::{
    ChannelStrip, CompMode, CompParam, CompSettings, EqBand, EqBandSettings, EqParam, EqSettings, ParamRange, StripTarget,
};
pub use clip::{Clip, ClipContent, ContentEvent, ContentModel, Material, Note, SessionClip, StretchMode};
pub use device::{
    AudioTap, AuxInputRoute, ChainModel, Device, DeviceModel, NativeDevice, NativeKind, Parallel, ParallelChain,
    PluginInstance, PluginModel, TapPoint, TapSource,
};
pub use loop_region::LoopRegion;
pub use song::{Scene, Song, SongModel};
pub use time_selection::{AutomationLaneKey, ClipKey, LaneRef, TimeSelection};
pub use track::{GroupTransform, InstrumentSource, Send, SendMode, SourceModel, Track, TrackModel};

verus! {

/// The id that stands for the master bus wherever a track id is expected.
pub const MASTER_TRACK_ID: u32 = 0xffff_ffff;

/// The models of a sequence of values.
pub open spec fn models<T: View>(s: Seq<T>) -> Seq<T::V> {
    Seq::new(s.len(), |i: int| s[i].view())
}

} // verus!
