use common::recovery::{
    is_autosave_file, lock_name_for, original_file_for_sidecar, recovery_name_for, sidecar_for, DocId,
};

#[test]
fn sidecar_appends_suffix() {
    assert_eq!(sidecar_for("song.daw"), "song.daw.autosave.daw");
}

#[test]
fn is_autosave_detects_suffix() {
    assert!(is_autosave_file("x.daw.autosave.daw"));
    assert!(is_autosave_file("abc-123.autosave.daw"));
    assert!(!is_autosave_file("x.daw"));
}

#[test]
fn original_for_sidecar_extracts_daw() {
    let orig = original_file_for_sidecar("C:\\proj\\song.daw.autosave.daw");
    assert_eq!(orig, Some("C:\\proj\\song.daw".to_string()));
}

#[test]
fn original_for_recovery_dir_uuid_returns_none() {
    let orig = original_file_for_sidecar("C:\\appdata\\recovery\\abc-uuid.autosave.daw");
    assert!(orig.is_none());
}

#[test]
fn recovery_and_lock_paths_round_trip_the_doc_id() {
    let dir = "C:\\appdata\\daw_01\\recovery";
    let id = DocId::new();
    assert_eq!(DocId::of_recovery_file(&format!("{dir}\\{}", recovery_name_for(id))), Some(id));
    assert_eq!(DocId::of_lock_file(&format!("{dir}\\{}", lock_name_for(id))), Some(id));
    assert_eq!(DocId::of_recovery_file("C:\\proj\\song.daw.autosave.daw"), None);
}

#[test]
fn doc_id_rejects_names_that_are_not_its_own_spelling() {
    let id = DocId::new();
    assert_eq!(DocId::parse(&id.to_text()), Some(id));
    for bad in [
        String::new(),
        ".".to_string(),
        "..".to_string(),
        id.to_text().to_uppercase(),
        format!("{{{}}}", id.to_text()),
        id.to_text().replace('-', ""),
    ] {
        // An id of digits alone is its own upper case; there is no letter in one
        // of a great many ids.
        if bad != id.to_text() {
            assert_eq!(DocId::parse(&bad), None, "{bad:?}");
        }
    }
    assert_eq!(DocId::of_recovery_file("..autosave.daw"), None);
}

#[test]
fn what_stands_behind_the_last_part_of_a_path_does_not_count() {
    assert!(is_autosave_file("song.daw.autosave.daw/"));
    assert!(is_autosave_file("C:\\proj\\song.daw.autosave.daw\\"));
    assert!(is_autosave_file("proj/song.daw.autosave.daw/."));
    assert!(!is_autosave_file("song.daw.autosave.daw/x.daw"));
    assert!(!is_autosave_file("") && !is_autosave_file("/"));
    assert_eq!(original_file_for_sidecar("proj/song.daw.autosave.daw//"), Some("proj/song.daw".to_string()));
    assert_eq!(original_file_for_sidecar(&sidecar_for("a/b.daw")), Some("a/b.daw".to_string()));
    assert_eq!(original_file_for_sidecar("a.daw/x.autosave.daw"), None);
    let id = DocId { id: 7 };
    assert_eq!(DocId::of_recovery_file(&format!("C:\\r\\{}", recovery_name_for(id))), Some(id));
    assert_eq!(DocId::of_lock_file(&format!("r/{}/", lock_name_for(id))), Some(id));
}

#[test]
fn drives_shares_and_devices_are_no_part_of_a_name() {
    let id = DocId { id: 7 };
    let name = recovery_name_for(id);
    let of = |before: &str| DocId::of_recovery_file(&format!("{before}{name}"));
    assert_eq!(of(""), Some(id));
    assert_eq!(of("C:"), Some(id), "a drive");
    assert_eq!(of("z:\\r/"), Some(id));
    assert_eq!(of("7:"), None, "no drive");
    assert_eq!(of("\\\\server\\share\\"), Some(id));
    assert_eq!(of("//server/share/"), Some(id));
    assert_eq!(of("\\\\server\\"), None, "the name is that of a share");
    assert_eq!(of("\\\\"), Some(id), "neither server nor share");
    assert_eq!(of("\\\\.\\"), None, "the name is that of a device");
    assert_eq!(of("\\\\?\\C:\\r\\"), Some(id));
    assert_eq!(of("\\\\?\\C:\\r/"), None, "a slash is a character like any other");
    assert_eq!(of("\\\\?\\UNC\\server\\share\\"), Some(id));
    assert_eq!(of("\\\\?\\UNC\\server\\"), None);
    assert_eq!(of("\\\\?\\r\\"), Some(id));
    assert_eq!(of("\\\\?\\"), None);
    assert_eq!(DocId::of_lock_file(&format!("C:{}", lock_name_for(id))), Some(id));
    assert_eq!(original_file_for_sidecar("C:song.daw.autosave.daw"), Some("C:song.daw".to_string()));
    assert_eq!(
        original_file_for_sidecar("\\\\server\\share\\song.daw.autosave.daw"),
        Some("\\\\server\\share\\song.daw".to_string())
    );
}

#[test]
fn ids_are_written_in_groups() {
    let id = DocId { id: 0x936da01f_9abd_4d9d_80c7_02af85c822a8 };
    assert_eq!(id.to_text(), "936da01f-9abd-4d9d-80c7-02af85c822a8");
    assert_eq!(DocId::parse("936da01f-9abd-4d9d-80c7-02af85c822a8"), Some(id));
    assert_eq!(DocId::parse("936DA01F-9ABD-4D9D-80C7-02AF85C822A8"), None);
    assert_eq!(recovery_name_for(id), "936da01f-9abd-4d9d-80c7-02af85c822a8.autosave.daw");
    assert_eq!(lock_name_for(id), "936da01f-9abd-4d9d-80c7-02af85c822a8.lock");
}

#[test]
fn an_id_is_taken_only_in_its_own_spelling() {
    let id = 0x936da01f_9abd_4d9d_80c7_02af85c822a8;
    assert_eq!(DocId::checked("936da01f-9abd-4d9d-80c7-02af85c822a8", Some(id)), Some(DocId { id }));
    assert_eq!(DocId::checked("936da01f9abd4d9d80c702af85c822a8", Some(id)), None);
    assert_eq!(DocId::checked("936da01f-9abd-4d9d-80c7-02af85c822a8", None), None);
}

#[test]
fn new_ids_are_random_ones() {
    let a = DocId::new();
    let b = DocId::new();
    assert_ne!(a, b);
    assert_eq!((a.id >> 76) & 0xf, 4);
    assert_eq!((a.id >> 62) & 0x3, 2);
}
