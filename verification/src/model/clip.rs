//! Clips and the content they show.

use crate::beat::Beat;
use crate::setting::Setting;
use vstd::prelude::*;

verus! {

/// A window onto a piece of content, placed on a track.
#[derive(Clone, Copy, Debug, PartialEq, Eq, Structural)]
pub struct Clip {
    /// Stable within the track; zero is not yet assigned.
    pub id: u32,
    pub start_beat: Beat,
    pub length_beats: Beat,
    /// Where the clip ends: its start plus its length.
    pub end_beat: Beat,
    /// The content shown; zero is none.
    pub content_id: u32,
    /// Where in the content the clip starts.
    pub content_offset_beats: Beat,
    /// How far the clip sounds before its start, into a crossfade.
    pub xfade_lead_beats: Beat,
    /// How far the clip sounds after its end, into a crossfade.
    pub xfade_tail_beats: Beat,
    pub muted: bool,
}

/// A clip in a launcher cell.
#[derive(Clone, Copy, Debug, PartialEq, Eq, Structural)]
pub struct SessionClip {
    /// The column of the cell.
    pub scene_id: u32,
    pub clip: Clip,
}

/// A note of MIDI content.
#[derive(Clone, Copy, Debug, PartialEq, Eq, Structural)]
pub struct Note {
    pub id: u32,
    pub start_beat: Beat,
    /// Where the note ends: its start plus its duration.
    pub end_beat: Beat,
    pub pitch: u8,
    pub velocity: u8,
    pub muted: bool,
}

/// How an event fades at one of its ends.
#[derive(Clone, Copy, Debug, PartialEq, Eq, Structural)]
pub struct Fade {
    pub beats: Beat,
    pub curve: u32,
    /// How much of the fade lies beyond the end of the event.
    pub over_beats: Beat,
}

/// How a take is fitted to its time.
#[derive(Clone, Copy, Debug, PartialEq, Eq, Structural)]
pub enum StretchMode {
    /// As it is.
    Raw,
    /// Faster or slower, and higher or lower with that.
    Repitch,
    /// Another way, which is told beside.
    Other,
}

/// What an event sounds or shows of its source, and how.
#[derive(Clone, Copy, Debug, PartialEq, Eq, Structural)]
pub struct Material {
    pub source_id: u32,
    pub source_start_frames: u64,
    pub source_end_frames: u64,
    pub gain_db: Setting,
    pub pitch_semitones: Setting,
    pub reversed: bool,
    pub stretch_mode: StretchMode,
}

/// A placed event of audio, video, image or text content.
#[derive(Clone, Copy, Debug, PartialEq, Eq, Structural)]
pub struct ContentEvent {
    pub id: u32,
    /// The event that this one is a piece of; zero is itself.
    pub take_id: u32,
    pub start_beat: Beat,
    /// Where the event ends: its start plus its length.
    pub end_beat: Beat,
    /// Where the take starts that this is a piece of.
    pub take_start_beat: Beat,
    /// Where the take ends that this is a piece of.
    pub take_end_beat: Beat,
    pub fade_in: Fade,
    pub fade_out: Fade,
    pub muted: bool,
    /// What the whole take sounds or shows.
    pub material: Material,
}

/// What a clip shows. Clips may share one content.
#[derive(Debug)]
pub enum ClipContent {
    Midi(Vec<Note>),
    Audio(Vec<ContentEvent>),
    Video(Vec<ContentEvent>),
    Image(Vec<ContentEvent>),
    Text(Vec<ContentEvent>),
    /// Automation points, carried by their ids.
    Automation(Vec<u32>),
}

/// The model of a content.
#[verifier::ext_equal]
pub enum ContentModel {
    Midi(Seq<Note>),
    Audio(Seq<ContentEvent>),
    Video(Seq<ContentEvent>),
    Image(Seq<ContentEvent>),
    Text(Seq<ContentEvent>),
    Automation(Seq<u32>),
}

impl View for ClipContent {
    type V = ContentModel;

    open spec fn view(&self) -> ContentModel {
        match self {
            ClipContent::Midi(v) => ContentModel::Midi(v@),
            ClipContent::Audio(v) => ContentModel::Audio(v@),
            ClipContent::Video(v) => ContentModel::Video(v@),
            ClipContent::Image(v) => ContentModel::Image(v@),
            ClipContent::Text(v) => ContentModel::Text(v@),
            ClipContent::Automation(v) => ContentModel::Automation(v@),
        }
    }
}

impl Clone for ClipContent {
    fn clone(&self) -> (r: ClipContent)
        ensures
            r@ == self@,
    {
        let r = match self {
            ClipContent::Midi(v) => ClipContent::Midi(v.clone()),
            ClipContent::Audio(v) => ClipContent::Audio(v.clone()),
            ClipContent::Video(v) => ClipContent::Video(v.clone()),
            ClipContent::Image(v) => ClipContent::Image(v.clone()),
            ClipContent::Text(v) => ClipContent::Text(v.clone()),
            ClipContent::Automation(v) => ClipContent::Automation(v.clone()),
        };
        assert(r@ =~= self@);
        r
    }
}

} // verus!
