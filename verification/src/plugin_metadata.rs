//! What built-in plugins are told about notes and spoken texts.

use crate::beat::Beat;
use vstd::prelude::*;

verus! {

/// A note as a built-in plugin gets it.
#[derive(Clone, Debug, PartialEq, Eq)]
pub struct NoteMetadata {
    /// See [`sing_note_id`].
    pub note_id: u32,
    pub start_beat: Beat,
    pub duration_beats: Beat,
    /// Zero for spoken texts.
    pub pitch: u8,
    pub velocity: u8,
    pub lyric: String,
    pub clip_id: u32,
    /// Zero for the default voice.
    pub speaker_id: u32,
}

impl Default for NoteMetadata {
    fn default() -> (r: NoteMetadata)
        ensures
            r.note_id == 0,
            r.start_beat.bits == 0,
            r.duration_beats.bits == 0,
            r.pitch == 0,
            r.velocity == 0,
            r.lyric@ == Seq::<char>::empty(),
            r.clip_id == 0,
            r.speaker_id == 0,
    {
        NoteMetadata {
            note_id: 0,
            start_beat: Beat::zero(),
            duration_beats: Beat::zero(),
            pitch: 0,
            velocity: 0,
            lyric: String::new(),
            clip_id: 0,
            speaker_id: 0,
        }
    }
}

/// The ids of spoken texts start here, right above those of notes.
pub const TALK_EVENT_ID_BASE: u32 = 0x1000_0000;

/// How many spoken texts a clip has room for in the ids.
pub const MAX_TEXT_EVENTS_PER_CLIP: u32 = 4096;

/// How many notes a clip has room for in the ids.
pub const MAX_NOTES_PER_CLIP: u32 = 16384;

/// How many clips a track has room for in the ids of notes.
pub const MAX_CLIPS_PER_TRACK_FOR_NOTE_ID: u32 = 16384;

/// The id of a note of a clip.
pub open spec fn sing_id(clip_id: int, note_id: int) -> int {
    (clip_id % (MAX_CLIPS_PER_TRACK_FOR_NOTE_ID as int)) * MAX_NOTES_PER_CLIP + note_id % (MAX_NOTES_PER_CLIP as int)
}

/// The id of a spoken text of a clip; at the end of the numbers it stays there.
pub open spec fn talk_id(clip_id: int, event_index: int) -> int {
    let id = TALK_EVENT_ID_BASE + clip_id * MAX_TEXT_EVENTS_PER_CLIP + event_index;
    if id > u32::MAX {
        u32::MAX as int
    } else {
        id
    }
}

/// The id of a note of a clip. It depends on nothing but the ids of both, so it
/// stays when other notes come and go.
pub fn sing_note_id(clip_id: u32, note_id: u32) -> (r: u32)
    ensures
        r == sing_id(clip_id as int, note_id as int),
        r < TALK_EVENT_ID_BASE,
{
    let c: u32 = clip_id % MAX_CLIPS_PER_TRACK_FOR_NOTE_ID;
    let n: u32 = note_id % MAX_NOTES_PER_CLIP;
    assert(c * MAX_NOTES_PER_CLIP + n < TALK_EVENT_ID_BASE) by (nonlinear_arith)
        requires
            c < 16384,
            n < 16384,
            MAX_NOTES_PER_CLIP == 16384,
            TALK_EVENT_ID_BASE == 0x1000_0000,
    ;
    c * MAX_NOTES_PER_CLIP + n
}

/// The id of a spoken text of a clip, above those of all notes.
pub fn talk_event_id(clip_id: u32, event_index: u32) -> (r: u32)
    ensures
        r == talk_id(clip_id as int, event_index as int),
        r >= TALK_EVENT_ID_BASE,
{
    let base: u64 = TALK_EVENT_ID_BASE as u64;
    let room: u64 = MAX_TEXT_EVENTS_PER_CLIP as u64;
    assert(clip_id as u64 * room <= 0xffff_ffff * 4096) by (nonlinear_arith)
        requires
            clip_id <= 0xffff_ffff,
            room == 4096,
    ;
    let id: u64 = base + clip_id as u64 * room + event_index as u64;
    if id > u32::MAX as u64 {
        u32::MAX
    } else {
        id as u32
    }
}

/// Notes and spoken texts never share an id.
pub proof fn law_notes_and_texts_are_apart(clip: u32, note: u32, other: u32, event: u32)
    ensures
        sing_id(clip as int, note as int) != talk_id(other as int, event as int),
{
    let c = clip as int % 16384;
    let n = note as int % 16384;
    assert(c * 16384 + n < 0x1000_0000) by (nonlinear_arith)
        requires
            0 <= c < 16384,
            0 <= n < 16384,
    ;
}

/// Within what there is room for, different notes have different ids.
pub proof fn law_notes_are_apart(clip: u32, note: u32, other_clip: u32, other_note: u32)
    requires
        clip < MAX_CLIPS_PER_TRACK_FOR_NOTE_ID,
        other_clip < MAX_CLIPS_PER_TRACK_FOR_NOTE_ID,
        note < MAX_NOTES_PER_CLIP,
        other_note < MAX_NOTES_PER_CLIP,
        sing_id(clip as int, note as int) == sing_id(other_clip as int, other_note as int),
    ensures
        clip == other_clip,
        note == other_note,
{
}

/// Within what there is room for, different spoken texts have different ids.
pub proof fn law_texts_are_apart(clip: u32, event: u32, other_clip: u32, other_event: u32)
    requires
        event < MAX_TEXT_EVENTS_PER_CLIP,
        other_event < MAX_TEXT_EVENTS_PER_CLIP,
        talk_id(clip as int, event as int) < u32::MAX,
        talk_id(clip as int, event as int) == talk_id(other_clip as int, other_event as int),
    ensures
        clip == other_clip,
        event == other_event,
{
}

} // verus!
