//! What the processes of the workstation tell each other.

use vstd::prelude::*;

verus! {

/// A key with its modifiers, by its virtual-key code.
#[derive(Clone, Copy, Debug, PartialEq, Eq, Hash, Structural)]
pub struct KeyChord {
    pub vk: u16,
    pub ctrl: bool,
    pub shift: bool,
    pub alt: bool,
}

/// The generation of the messages. Processes that were built from different
/// message layouts find out by it when they greet each other.
pub const PROTOCOL_FINGERPRINT: u64 = 0x5d41_a7c3_90fe_2b68;

/// The processes that the workstation starts.
#[derive(Clone, Copy, Debug, PartialEq, Eq, Structural)]
pub enum ChildKind {
    Audio,
    PluginHost,
}

/// The name of a process in the names of what it shares.
pub open spec fn child_name(kind: ChildKind) -> Seq<char> {
    match kind {
        ChildKind::Audio => "audio"@,
        ChildKind::PluginHost => "plugin_host"@,
    }
}

impl ChildKind {
    /// The name of the process in the names of what it shares.
    pub fn as_str(self) -> (r: &'static str)
        ensures
            r@ == child_name(self),
    {
        match self {
            ChildKind::Audio => "audio",
            ChildKind::PluginHost => "plugin_host",
        }
    }
}

/// Whether a plugin runs against the clock.
#[derive(Clone, Copy, Debug, PartialEq, Eq, Structural)]
pub enum RenderMode {
    Realtime,
    Offline,
}

/// What the processes of one session share.
#[derive(Clone, Debug, PartialEq, Eq)]
pub struct AudioSession {
    pub shmem_id: String,
    pub metrics_shmem_id: String,
    pub scope_shmem_id: String,
    pub sample_rate: u32,
    pub max_frames: u32,
    pub channels: u16,
}

/// What a plugin parameter is like, one bit each.
pub const PARAM_STEPPED: u32 = 0x01;

pub const PARAM_PERIODIC: u32 = 0x02;

pub const PARAM_READONLY: u32 = 0x04;

pub const PARAM_HIDDEN: u32 = 0x08;

pub const PARAM_AUTOMATABLE: u32 = 0x10;

pub const PARAM_MODULATABLE: u32 = 0x20;

pub const PARAM_REQUIRES_PROCESS: u32 = 0x40;

/// The state of a plugin as it is stored.
#[derive(Clone, Debug, PartialEq, Eq, Hash)]
pub struct SlotState {
    pub device_id: u64,
    pub data: Option<Vec<u8>>,
    pub ara_archive: Option<Vec<u8>>,
    pub error: Option<String>,
}

/// What the audio engine tells the interface.
#[derive(Clone, Debug, PartialEq, Eq)]
pub enum AudioEvent {
    Hello { pid: u32, device_sample_rate: Option<u32>, protocol_fingerprint: u64 },
    ChildDisconnected,
    ExportWavComplete { error: Option<String>, cancelled: bool },
    ExportWavProgress { done: u64, total: u64 },
    BounceClipFxComplete {
        path: String,
        source_track: u32,
        source_clip: u32,
        error: Option<String>,
        frames: u64,
    },
    PluginUnresponsive { device_id: u64 },
    WorkerPoolStalled,
}

/// Why a voice could not be synthesised.
#[derive(Clone, Debug, PartialEq, Eq)]
pub enum VocalSynthFailure {
    /// It could.
    Nothing,
    Unreachable,
    Rejected { detail: String },
}

} // verus!
