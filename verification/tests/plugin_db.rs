use common::plugin_db::{
    builtin_descriptors, PluginDatabase, PluginEntry, VideoFx, BUILTIN_ID_SILENCE, BUILTIN_ID_VOICEVOX,
    CLAP_FEATURE_ARA_REQUIRED, CLAP_FEATURE_ARA_SUPPORTED, SUBTITLE_ID,
};
use common::plugin_format::PluginFormat;

fn entry(id: &str, name: &str, path: &str, descriptor_index: u32, has_audio_input: bool) -> PluginEntry {
    PluginEntry {
        id: id.into(),
        format: PluginFormat::Clap,
        name: name.into(),
        vendor: String::new(),
        version: "0.1.0".into(),
        features: vec![],
        path: path.into(),
        descriptor_index,
        has_note_input: false,
        has_note_output: false,
        has_audio_output: true,
        has_audio_input,
        has_video_input: false,
        has_video_output: false,
    }
}

fn catalog() -> Vec<VideoFx> {
    let fx = |id: &str, name: &str, category: &str| VideoFx { id: id.into(), name: name.into(), category: category.into() };
    vec![fx("fx.blur", "Blur", "blur"), fx("fx.key", "Key", "keying")]
}

#[test]
fn find_by_id_hit() {
    let mut foo = entry("com.example.foo", "Foo", "C:\\foo.clap", 0, false);
    foo.vendor = "Example".into();
    foo.version = "1.0".into();
    foo.features = vec!["instrument".into()];
    let db = PluginDatabase::new(vec![foo], Some(42), 0);
    assert_eq!(db.find_by_id("com.example.foo").map(|e| e.name.as_str()), Some("Foo"));
}

#[test]
fn find_by_id_miss() {
    let db = PluginDatabase::default();
    assert!(db.find_by_id("missing").is_none());
}

#[test]
fn find_by_id_follows_every_way_entries_change() {
    let entries = vec![
        entry("a", "A1", "x.clap", 0, false),
        entry("b", "B", "x.clap", 0, false),
        entry("a", "A2", "x.clap", 0, false),
    ];
    let mut db = PluginDatabase::new(entries, None, 3);
    assert_eq!(db.port_probe_version(), 3);
    assert_eq!(db.find_by_id("a").map(|e| e.name.as_str()), Some("A1"));
    db.update_entry(1, |e| e.id = "c".into());
    assert!(db.find_by_id("b").is_none());
    assert_eq!(db.find_by_id("c").map(|e| e.name.as_str()), Some("B"));
    db.ensure_builtins(&catalog());
    assert_eq!(db.find_by_id("c").map(|e| e.name.as_str()), Some("B"));
    assert!(db.find_by_id(BUILTIN_ID_VOICEVOX).is_some());
}

#[test]
fn plugin_db_save_load_roundtrip() {
    let db = PluginDatabase::new(vec![entry("com.test.x", "X", "/tmp/x.clap", 2, true)], Some(100), 0);
    let loaded = PluginDatabase::restored(db.persisted(), db.scanned_at(), db.port_probe_version(), &catalog());
    let mut expected = db.clone();
    expected.ensure_builtins(&catalog());
    let ids = |db: &PluginDatabase| db.entries().iter().map(|e| (e.id.clone(), e.descriptor_index)).collect::<Vec<_>>();
    assert_eq!(ids(&loaded), ids(&expected));
    assert_eq!(loaded.scanned_at(), db.scanned_at());
    assert!(loaded.find_by_id("com.test.x").is_some());
}

#[test]
fn ensure_builtins_injects_voicevox() {
    let mut db = PluginDatabase::default();
    assert!(db.find_by_id(BUILTIN_ID_VOICEVOX).is_none());
    db.ensure_builtins(&catalog());
    let e = db.find_by_id(BUILTIN_ID_VOICEVOX).expect("voicevox present after ensure_builtins");
    assert_eq!(e.format, PluginFormat::Builtin);
    assert!(db.find_by_id(BUILTIN_ID_SILENCE).is_some());
}

#[test]
fn ensure_builtins_is_idempotent() {
    let mut db = PluginDatabase::default();
    db.ensure_builtins(&catalog());
    let n = db.entries().len();
    db.ensure_builtins(&catalog());
    assert_eq!(db.entries().len(), n);
}

#[test]
fn save_to_file_excludes_builtins() {
    let mut db = PluginDatabase::new(vec![entry("com.test.x", "X", "/tmp/x.clap", 0, true)], Some(1), 0);
    db.ensure_builtins(&catalog());
    let on_disk = PluginDatabase::new(db.persisted(), db.scanned_at(), db.port_probe_version());
    assert!(on_disk.find_by_id(BUILTIN_ID_VOICEVOX).is_none());
    assert!(on_disk.find_by_id(BUILTIN_ID_SILENCE).is_none());
    assert_eq!(on_disk.entries().len(), 1);
    assert_eq!(on_disk.entries()[0].id, "com.test.x");
    let loaded = PluginDatabase::restored(db.persisted(), db.scanned_at(), db.port_probe_version(), &catalog());
    assert!(loaded.find_by_id("com.test.x").is_some());
    assert!(loaded.find_by_id(BUILTIN_ID_VOICEVOX).is_some());
}

#[test]
fn ports_are_probed_again_only_for_external_plugins() {
    let mut db = PluginDatabase::default();
    db.ensure_builtins(&catalog());
    assert!(!db.needs_port_probe());
    let mut db = PluginDatabase::new(vec![entry("x", "X", "x.clap", 0, true)], None, 0);
    assert!(db.needs_port_probe());
    db.set_port_probe_version(u32::MAX);
    assert!(!db.needs_port_probe());
}

#[test]
fn random_access_to_audio_is_told_by_the_features() {
    let mut e = entry("x", "X", "x.clap", 0, true);
    assert!(!e.is_ara() && !e.ara_required());
    e.features = vec!["instrument".into(), CLAP_FEATURE_ARA_SUPPORTED.into()];
    assert!(e.is_ara() && !e.ara_required());
    e.features = vec![CLAP_FEATURE_ARA_REQUIRED.into()];
    assert!(e.is_ara() && e.ara_required());
}

#[test]
fn built_in_plugins_come_in_order_with_the_effects_last() {
    let all = builtin_descriptors(&catalog());
    let ids: Vec<&str> = all.iter().map(|e| e.id.as_str()).collect();
    assert_eq!(ids, vec![BUILTIN_ID_SILENCE, BUILTIN_ID_VOICEVOX, SUBTITLE_ID, "fx.blur", "fx.key"]);
    for (i, e) in all.iter().enumerate() {
        assert_eq!((e.vendor.as_str(), e.descriptor_index, &e.path), ("daw_01", 0, &e.id));
        assert_eq!((e.has_note_input, e.has_audio_output), (i < 2, i < 2));
        assert_eq!((e.has_video_input, e.has_video_output), (i >= 2, i >= 2));
        assert!(!e.has_note_output && !e.has_audio_input);
    }
    assert_eq!(all[3].features, vec!["video-effect".to_string(), "blur".to_string()]);
    assert_eq!(builtin_descriptors(&Vec::new()).len(), 3);
}

#[test]
fn a_restored_database_has_the_effects() {
    let db = PluginDatabase::restored(vec![entry("x", "X", "x.clap", 0, true)], None, 0, &catalog());
    assert_eq!(db.find_by_id("fx.key").map(|e| e.name.as_str()), Some("Key"));
    assert_eq!(db.entries().len(), 6);
}
