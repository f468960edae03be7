use common::note_value::{NoteKind, NoteValue};
use common::plugin_ref::{
    process_data_shmem_id, worker_bridge_shmem_id, worker_done_event_name, worker_wake_event_name,
};
use common::project::tmp_path;
use common::time::TimeDisplay;

#[test]
fn tmp_path_appends_tmp_suffix() {
    assert_eq!(tmp_path("song.daw"), "song.daw.tmp");
}

#[test]
fn shared_names_carry_their_generation() {
    assert_eq!(worker_wake_event_name(7, 2, 11), "daw_01_worker_wake_7_2_11");
    assert_eq!(worker_done_event_name(7, 2, 11), "daw_01_worker_done_7_2_11");
    assert_eq!(process_data_shmem_id(7, 1 << 40, 3), "daw_01_process_data_7_1099511627776_3");
    assert_eq!(worker_bridge_shmem_id(7), "daw_01_worker_bridge_7");
    assert_ne!(worker_wake_event_name(7, 2, 11), worker_wake_event_name(7, 21, 1));
}

#[test]
fn note_values_have_labels() {
    assert_eq!(NoteValue::new(8, NoteKind::Straight).label(), "1/8");
    assert_eq!(NoteValue::new(8, NoteKind::Dotted).label(), "1/8.");
    assert_eq!(NoteValue::new(16, NoteKind::Triplet).label(), "1/16T");
    assert_eq!(NoteValue::new(0, NoteKind::default()).label(), "1/1");
}

#[test]
fn smpte_format_basic() {
    assert_eq!(TimeDisplay::Smpte30.smpte_fps(), 30);
    assert_eq!(TimeDisplay::Smpte30.frames_to_smpte(30), "00:00:01:00");
    assert_eq!(TimeDisplay::Smpte24.frames_to_smpte(24 * 3661 + 5), "01:01:01:05");
    assert_eq!(TimeDisplay::Smpte25.frames_to_smpte(25 * 3600 * 100), "100:00:00:00");
}
