use common::plugin_metadata::{
    sing_note_id, talk_event_id, NoteMetadata, MAX_CLIPS_PER_TRACK_FOR_NOTE_ID, MAX_NOTES_PER_CLIP, TALK_EVENT_ID_BASE,
};

#[test]
fn talk_event_ids_are_unique_and_above_base() {
    let a = talk_event_id(1, 0);
    let b = talk_event_id(1, 1);
    let c = talk_event_id(2, 0);
    assert!(a >= TALK_EVENT_ID_BASE);
    assert_ne!(a, b);
    assert_ne!(a, c);
    assert_ne!(b, c);
    assert!(talk_event_id(0, 0) > 100_000);
}

#[test]
fn sing_note_ids_stay_below_talk_band() {
    assert!(sing_note_id(u32::MAX, u32::MAX) < TALK_EVENT_ID_BASE);
    assert!(sing_note_id(0, 0) < TALK_EVENT_ID_BASE);
    assert_eq!(MAX_CLIPS_PER_TRACK_FOR_NOTE_ID * MAX_NOTES_PER_CLIP, TALK_EVENT_ID_BASE);
}

#[test]
fn sing_note_id_is_stable_against_sibling_insertion() {
    assert_eq!(sing_note_id(3, 7), sing_note_id(3, 7));
    assert_ne!(sing_note_id(3, 7), sing_note_id(3, 8));
    assert_ne!(sing_note_id(3, 7), sing_note_id(4, 7));
    assert_eq!(sing_note_id(0, 1), 1);
    assert_eq!(sing_note_id(1, 1), MAX_NOTES_PER_CLIP + 1);
}

#[test]
fn sing_and_talk_id_spaces_do_not_overlap() {
    for clip in [0u32, 1, 5, 4095, 16_383] {
        for note in [0u32, 1, 16_383] {
            assert!(sing_note_id(clip, note) < TALK_EVENT_ID_BASE);
        }
        for ev in [0u32, 1, 4095] {
            assert!(talk_event_id(clip, ev) >= TALK_EVENT_ID_BASE);
        }
    }
}

#[test]
fn talk_event_ids_stay_at_the_end_of_the_numbers() {
    assert_eq!(talk_event_id(u32::MAX, 0), u32::MAX);
    assert_eq!(talk_event_id(3, 2), TALK_EVENT_ID_BASE + 3 * 4096 + 2);
}

#[test]
fn default_is_empty() {
    let m = NoteMetadata::default();
    assert_eq!(m.note_id, 0);
    assert_eq!(f64::from_bits(m.start_beat.bits), 0.0);
    assert_eq!(f64::from_bits(m.duration_beats.bits), 0.0);
    assert_eq!(m.pitch, 0);
    assert_eq!(m.velocity, 0);
    assert!(m.lyric.is_empty());
    assert_eq!(m.clip_id, 0);
    assert_eq!(m.speaker_id, 0);
}
