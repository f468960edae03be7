use common::beat::Beat;
use common::document::read_document;
use common::json::{Json, Member, Number};
use common::model::clip::Fade;
use common::model::{
    Clip, ClipContent, ContentEvent, Device, LoopRegion, Material, PluginInstance, Song, StretchMode, Track,
};
use common::plugin_db::SUBTITLE_ID;
use common::plugin_format::PluginFormat;
use common::port_config::PortConfig;
use common::project::clip_content::migrate_legacy_clip_content;
use common::project::device_chains::migrate_legacy_device_chains;
use common::project::native_migration::migrate_strips_to_native;
use common::project::pools::{migrate_flat_ids_to_allocators, migrate_flat_media_to_pools};
use common::project::sidechain::migrate_legacy_sidechain_to_aux;
use common::project::song_steps::migrate_per_event_mute_to_clip_mute;
use common::project::tags::migrate_clip_content_add_tag;
use common::project::vocal::migrate_vocal_source_to_clips;
use common::project::{
    check_version, legacy_song_loop_region, migrate_song, open_document, prepare_document, resolve_loop_region, VersionError,
    CURRENT_VERSION,
};
use common::setting::Setting;
use serde_json::Value;

fn read(text: &str) -> Value {
    serde_json::from_str(text).unwrap()
}

fn to_json(v: &Value) -> Json {
    match v {
        Value::Null => Json::Null,
        Value::Bool(b) => Json::Bool(*b),
        Value::Number(n) => Json::Number(match (n.as_u64(), n.as_i64()) {
            (Some(u), _) => Number::Unsigned(u),
            (None, Some(i)) => Number::Negative(i),
            _ => Number::Real(n.as_f64().unwrap().to_bits()),
        }),
        Value::String(s) => Json::Text(s.clone()),
        Value::Array(a) => Json::List(a.iter().map(to_json).collect()),
        Value::Object(m) => {
            Json::Object(m.iter().map(|(k, v)| Member { key: k.clone(), value: to_json(v) }).collect())
        }
    }
}

fn to_value(j: &Json) -> Value {
    match j {
        Json::Null => Value::Null,
        Json::Bool(b) => Value::Bool(*b),
        Json::Number(Number::Unsigned(u)) => Value::from(*u),
        Json::Number(Number::Negative(i)) => Value::from(*i),
        Json::Number(Number::Real(b)) => Value::from(f64::from_bits(*b)),
        Json::Text(s) => Value::String(s.clone()),
        Json::List(v) => Value::Array(v.iter().map(to_value).collect()),
        Json::Object(v) => Value::Object(v.iter().map(|m| (m.key.clone(), to_value(&m.value))).collect()),
    }
}

/// What a document becomes.
fn after(text: &str, step: impl Fn(&mut Json)) -> Value {
    let mut doc = to_json(&read(text));
    step(&mut doc);
    to_value(&doc)
}

fn bands() -> Vec<String> {
    Vec::new()
}

// ---------------------------------------------------------------------------
// Side chains
// ---------------------------------------------------------------------------

#[test]
fn migrate_legacy_sidechain_lifts_to_post_fader_aux() {
    let text = r#"{"tracks": [{"devices": [{
        "plugin_id": "test.compressor", "format": "Vst3", "sidechain_sources": [1, null]}]}]}"#;
    let v = after(text, |d| migrate_legacy_sidechain_to_aux(d));
    let dev = &v["tracks"][0]["devices"][0];
    assert!(dev.get("sidechain_sources").is_none(), "the key is gone");
    let aux = dev["aux_inputs"].as_array().unwrap();
    assert_eq!(aux.len(), 2);
    assert_eq!(aux[0]["tap"]["source"]["Track"], 1);
    assert_eq!(aux[0]["tap"]["tap_point"], "PostFader");
    assert!(aux[1].is_null());
}

#[test]
fn migrate_legacy_sidechain_noop_when_aux_present() {
    let text = r#"{"devices": [{"sidechain_sources": [5], "aux_inputs": [null]}]}"#;
    let v = after(text, |d| migrate_legacy_sidechain_to_aux(d));
    let dev = &v["devices"][0];
    assert!(dev.get("sidechain_sources").is_none());
    assert_eq!(dev["aux_inputs"], read("[null]"), "what is there stays");
}

// ---------------------------------------------------------------------------
// Device chains
// ---------------------------------------------------------------------------

#[test]
fn migrate_legacy_device_chains_flattens_and_resolves_slots() {
    let text = r#"{
        "tracks": [{
            "id": 1,
            "midi_fx_chain": [
                { "plugin_id": "arp", "format": "Clap" },
                { "plugin_id": "quant", "format": "Clap" }
            ],
            "instrument": { "plugin_id": "synth", "format": "Clap" },
            "fx_chain": [
                { "plugin_id": "comp", "format": "Clap" },
                { "plugin_id": "reverb", "format": "Clap" }
            ],
            "automation_lanes": [
                { "target": { "PluginParam": { "track": 1, "param_id": 5, "slot": "Instrument" } } },
                { "target": { "PluginParam": { "track": 1, "param_id": 9, "slot": { "Fx": 1 } } } },
                { "target": { "PluginParam": { "track": 1, "param_id": 2, "slot": { "MidiFx": 1 } } } }
            ]
        }],
        "midi_bindings": [
            { "target": { "PluginParam": { "track": 1, "param_id": 7, "slot": { "Fx": 0 } } } }
        ]
    }"#;
    let v = after(text, |d| migrate_legacy_device_chains(d));
    let track = &v["tracks"][0];
    let ids: Vec<&str> =
        track["devices"].as_array().unwrap().iter().map(|d| d["plugin_id"].as_str().unwrap()).collect();
    assert_eq!(ids, vec!["arp", "quant", "synth", "comp", "reverb"]);
    assert!(track.get("midi_fx_chain").is_none());
    assert!(track.get("instrument").is_none());
    assert!(track.get("fx_chain").is_none());
    let lanes = track["automation_lanes"].as_array().unwrap();
    let lane_idx = |i: usize| lanes[i]["target"]["PluginParam"]["device_index"].as_u64().unwrap();
    assert_eq!(lane_idx(0), 2);
    assert_eq!(lane_idx(1), 4);
    assert_eq!(lane_idx(2), 1);
    assert!(lanes[0]["target"]["PluginParam"].get("slot").is_none());
    let binding = &v["midi_bindings"][0]["target"]["PluginParam"];
    assert_eq!(binding["device_index"].as_u64().unwrap(), 3);
    assert!(binding.get("slot").is_none());
}

#[test]
fn migrate_legacy_device_chains_noop_for_new_format() {
    let text = r#"{"tracks": [{"id": 1, "devices": [{ "plugin_id": "synth", "format": "Clap" }]}]}"#;
    let v = after(text, |d| migrate_legacy_device_chains(d));
    let devices = v["tracks"][0]["devices"].as_array().unwrap();
    assert_eq!(devices.len(), 1);
    assert_eq!(devices[0]["plugin_id"].as_str().unwrap(), "synth");
}

// ---------------------------------------------------------------------------
// Pools and counters
// ---------------------------------------------------------------------------

#[test]
fn migrate_flat_media_to_pools_moves_top_level_maps() {
    let text = r#"{"audio_sources": { "1": {} }, "video_sources": { "2": {} }, "tracks": []}"#;
    let v = after(text, |d| migrate_flat_media_to_pools(d));
    assert!(v.get("audio_sources").is_none());
    assert!(v.get("video_sources").is_none());
    assert!(v["media"]["audio_sources"].get("1").is_some());
    assert!(v["media"]["video_sources"].get("2").is_some());
    let again = after(&v.to_string(), |d| migrate_flat_media_to_pools(d));
    assert_eq!(again, v);
}

#[test]
fn migrate_flat_ids_to_allocators_moves_top_level_counters() {
    let text = r#"{"next_track_id": 5, "next_content_id": 9, "tracks": []}"#;
    let v = after(text, |d| migrate_flat_ids_to_allocators(d));
    assert!(v.get("next_track_id").is_none());
    assert_eq!(v["ids"]["next_track_id"], 5);
    assert_eq!(v["ids"]["next_content_id"], 9);
    let again = after(&v.to_string(), |d| migrate_flat_ids_to_allocators(d));
    assert_eq!(again, v);
}

// ---------------------------------------------------------------------------
// Types of contents
// ---------------------------------------------------------------------------

#[test]
fn migrate_clip_content_add_tag_disambiguates_all_variants() {
    let cases = [
        ("Midi", r#"{ "notes": [] }"#),
        ("Automation", r#"{ "points": [] }"#),
        ("Audio", r#"{ "events": [{ "source_start_frames": 0 }] }"#),
        ("Video", r#"{ "events": [{ "source_start_micros": 0 }] }"#),
        ("Image", r#"{ "events": [{ "opacity": 1.0 }] }"#),
        ("Text", r#"{ "events": [{ "text": "hi" }] }"#),
        ("Text", r#"{ "events": [{ "text": "hi", "opacity": 0.8 }] }"#),
        ("Midi", r#"{}"#),
        ("Audio", r#"{ "next_event_id": 3 }"#),
        ("Automation", r#"{ "next_point_id": 2 }"#),
    ];
    for (expected, content) in cases {
        let text = format!(r#"{{"version": 29, "song": {{ "clip_contents": {{ "1": {content} }} }} }}"#);
        let v = after(&text, |d| migrate_clip_content_add_tag(d));
        assert_eq!(v["song"]["clip_contents"]["1"]["type"].as_str(), Some(expected), "{content}");
    }
}

#[test]
fn migrate_clip_content_add_tag_is_idempotent() {
    let text = r#"{"version": 30, "song": { "clip_contents": { "1": { "type": "Audio", "events": [] } } } }"#;
    let v = after(text, |d| migrate_clip_content_add_tag(d));
    assert_eq!(v["song"]["clip_contents"]["1"]["type"].as_str(), Some("Audio"));
}

// ---------------------------------------------------------------------------
// Voices
// ---------------------------------------------------------------------------

#[test]
fn migrate_old_vocal_source_bakes_voice_into_clips() {
    let text = r#"{
        "version": 2,
        "song": {
            "tracks": [{
                "source": { "Vocal": { "speaker_id": 3061, "style_name": "へろへろ" } },
                "clips": [
                    { "id": 1 },
                    { "id": 2, "speaker_id": 7, "style_name": "あまあま" }
                ]
            }]
        }
    }"#;
    let v = after(text, |d| migrate_vocal_source_to_clips(d));
    let track = &v["song"]["tracks"][0];
    assert_eq!(track["source"], "Vocal");
    assert_eq!(track["clips"][0]["speaker_id"], 3061);
    assert_eq!(track["clips"][0]["style_name"], "へろへろ");
    assert_eq!(track["clips"][1]["speaker_id"], 7);
    assert_eq!(track["clips"][1]["style_name"], "あまあま");
}

#[test]
fn migrate_is_noop_for_new_unit_vocal_source() {
    let text = r#"{"version": 2, "song": { "tracks": [{ "source": "Vocal", "clips": [{ "id": 1 }] }] } }"#;
    assert_eq!(after(text, |d| migrate_vocal_source_to_clips(d)), read(text));
}

// ---------------------------------------------------------------------------
// Whole documents
// ---------------------------------------------------------------------------

#[test]
fn load_v6_clip_content_struct_form_deserializes_as_midi_variant() {
    let text = r#"{
        "version": 6,
        "song": {
            "bpm": 120.0,
            "next_track_id": 2,
            "next_content_id": 2,
            "clip_contents": {
                "1": {
                    "notes": [
                        {"start_beat": 0.0, "duration_beats": 1.0, "pitch": 60, "velocity": 100}
                    ]
                }
            },
            "tracks": [{ "id": 1, "clips": [{ "id": 1, "content_id": 1 }] }]
        }
    }"#;
    let v = after(text, |d| {
        let told = prepare_document(d, &bands());
        assert_eq!(told.file_version, 6);
        assert!(told.legacy_loop.is_none());
    });
    let content = &v["song"]["clip_contents"]["1"];
    assert_eq!(content["type"], "Midi");
    assert_eq!(content["notes"].as_array().unwrap().len(), 1);
    assert_eq!(content["notes"][0]["pitch"], 60);
    assert_eq!(v["song"]["ids"]["next_content_id"], 2);
}

#[test]
fn load_v5_migrates_clip_notes_to_clip_contents() {
    let text = r#"{
        "version": 5,
        "song": {
            "tracks": [{
                "id": 1,
                "clips": [{
                    "id": 1,
                    "name": "C",
                    "start_beat": 0.0,
                    "length_beats": 4.0,
                    "notes": [
                        {"start_beat": 0.0, "duration_beats": 1.0, "pitch": 60, "velocity": 100}
                    ]
                }]
            }]
        }
    }"#;
    let v = after(text, |d| {
        prepare_document(d, &bands());
    });
    let clip = &v["song"]["tracks"][0]["clips"][0];
    let id = clip["content_id"].as_u64().unwrap();
    assert_ne!(id, 0);
    assert!(clip.get("notes").is_none());
    let content = &v["song"]["clip_contents"][id.to_string()];
    assert_eq!(content["type"], "Midi");
    assert_eq!(content["notes"].as_array().unwrap().len(), 1);
    assert_eq!(content["notes"][0]["pitch"], 60);
}

#[test]
fn load_rejects_invalid_json() {
    let err = open_document("not valid json {", &bands()).unwrap_err();
    assert!(err.contains("expected ident at line 1 column 2"), "{err}");
}

#[test]
fn texts_are_read_as_what_they_say() {
    let text = r#"{"b": [null, true, -3, 1.5, "ん"], "a": {"n": 18446744073709551615}, "b": 2}"#;
    let doc = read_document(text).unwrap();
    assert_eq!(doc.get("b").unwrap().as_u64(), Some(2), "the last of two members counts");
    assert_eq!(doc.get("a").unwrap().get("n").unwrap().as_u64(), Some(u64::MAX));
    let list = read_document(r#"[null, true, -3, 1.5, "ん"]"#).unwrap();
    let list = list.as_list().unwrap();
    assert!(matches!(list[0], Json::Null));
    assert_eq!(list[1].as_bool(), Some(true));
    assert!(matches!(list[2], Json::Number(Number::Negative(-3))));
    assert!(matches!(list[3], Json::Number(Number::Real(b)) if b == 1.5f64.to_bits()));
    assert_eq!(list[4].as_text().unwrap(), "ん");
    assert_eq!(to_value(&doc), read(text));
}

#[test]
fn a_text_is_opened_in_the_present_form() {
    let text = r#"{"version": 30, "song": {"next_track_id": 3, "loop_start_beat": 1, "loop_end_beat": 2.5}}"#;
    let (doc, told) = open_document(text, &bands()).unwrap();
    assert_eq!(told.file_version, 30);
    assert!(matches!(told.legacy_loop, Some((Number::Unsigned(1), Number::Real(_)))));
    assert_eq!(to_value(&doc)["song"]["ids"]["next_track_id"], 3);
}

#[test]
fn draining_contents_twice_is_draining_them_once() {
    let text = r#"{"tracks": [{"clips": [{"id": 1, "notes": [{"pitch": 1}]}, {"id": 2, "notes": []}]}]}"#;
    let once = after(text, |d| migrate_legacy_clip_content(d));
    let twice = after(&once.to_string(), |d| migrate_legacy_clip_content(d));
    assert_eq!(once, twice);
}

#[test]
fn strips_become_devices() {
    let text = r#"{"tracks": [{"id": 1, "devices": [{"Plugin": {"id": 4}}], "strip": {"comp": {"on": true}}}]}"#;
    let v = after(text, |d| migrate_strips_to_native(d, &bands()));
    assert!(v["tracks"][0].get("strip").is_none());
    assert!(v["tracks"][0]["devices"].as_array().unwrap().len() > 1);
    assert_eq!(after(&v.to_string(), |d| migrate_strips_to_native(d, &bands())), v);
}

#[test]
fn load_rejects_newer_version() {
    let err = check_version(CURRENT_VERSION + 1).unwrap_err();
    assert!(matches!(err, VersionError::Newer { .. }));
    assert!(err.message("future.daw").contains("newer"));
    assert!(check_version(CURRENT_VERSION).is_ok());
}

#[test]
fn load_rejects_legacy_row_based_version() {
    let err = check_version(1).unwrap_err();
    assert!(matches!(err, VersionError::Retired { .. }));
    assert!(err.message("old.daw").contains("retired"));
    assert!(check_version(2).is_ok());
}

// ---------------------------------------------------------------------------
// The loop
// ---------------------------------------------------------------------------

fn beat(x: f64) -> Beat {
    Beat { bits: x.to_bits() }
}

fn region(enabled: bool, start: f64, end: f64) -> LoopRegion {
    LoopRegion { enabled, start_beat: beat(start), end_beat: beat(end) }
}

fn number(n: Number) -> Beat {
    match n {
        Number::Unsigned(u) => beat(u as f64),
        Number::Negative(i) => beat(i as f64),
        Number::Real(bits) => Beat { bits },
    }
}

fn carried(text: &str) -> Option<LoopRegion> {
    let mut doc = to_json(&read(text));
    let told = prepare_document(&mut doc, &bands());
    told.legacy_loop.and_then(|(a, b)| legacy_song_loop_region(number(a), number(b)))
}

#[test]
fn legacy_song_loop_range_migrates_to_loaded_loop_region() {
    let old = carried(r#"{"version": 30, "song": {"loop_start_beat": 4.0, "loop_end_beat": 12.0}}"#);
    assert_eq!(resolve_loop_region(None, old), region(false, 4.0, 12.0));
}

#[test]
fn legacy_song_loop_range_wins_over_defaulted_view_loop_region() {
    let old = carried(r#"{"version": 30, "song": {"loop_start_beat": 2.0, "loop_end_beat": 6.0}}"#);
    assert_eq!(resolve_loop_region(Some(LoopRegion::default()), old), region(false, 2.0, 6.0));
}

#[test]
fn a_loop_of_the_view_is_what_it_is() {
    let old = carried(r#"{"version": 39, "song": {}}"#);
    assert_eq!(old, None);
    assert_eq!(resolve_loop_region(Some(region(true, 8.0, 24.0)), old), region(true, 8.0, 24.0));
}

// ---------------------------------------------------------------------------
// Songs
// ---------------------------------------------------------------------------

fn song_with_one_text_clip(muted: bool) -> Song {
    let none = Fade { beats: beat(0.0), curve: 0, over_beats: beat(0.0) };
    let event = ContentEvent {
        id: 1,
        take_id: 0,
        start_beat: beat(0.0),
        end_beat: beat(8.0),
        fade_in: none,
        fade_out: none,
        take_start_beat: beat(0.0),
        take_end_beat: beat(8.0),
        muted,
        material: Material {
            source_id: 0,
            source_start_frames: 0,
            source_end_frames: 0,
            gain_db: Setting { bits: 0 },
            pitch_semitones: Setting { bits: 0 },
            reversed: false,
            stretch_mode: StretchMode::Raw,
        },
    };
    let mut song = Song::default();
    song.clip_contents.push((1, ClipContent::Text(vec![event])));
    let mut track = Track { id: 1, name: "Subs".into(), ..Track::default() };
    track.clips.push(Clip {
        id: 1,
        start_beat: beat(0.0),
        length_beats: beat(8.0),
        end_beat: beat(8.0),
        content_id: 1,
        content_offset_beats: beat(0.0),
        xfade_lead_beats: beat(0.0),
        xfade_tail_beats: beat(0.0),
        muted: false,
    });
    song.tracks.push(track);
    song
}

fn event_muted(song: &Song) -> bool {
    match &song.clip_contents[0].1 {
        ClipContent::Text(v) => v[0].muted,
        _ => panic!("expected text"),
    }
}

#[test]
fn migrate_per_event_mute_folds_into_clip_and_clears_event() {
    let mut song = song_with_one_text_clip(true);
    migrate_per_event_mute_to_clip_mute(&mut song);
    assert!(song.tracks[0].clips[0].muted);
    assert!(!event_muted(&song));
}

#[test]
fn migrate_per_event_mute_leaves_unmuted_clip_untouched() {
    let mut song = song_with_one_text_clip(false);
    migrate_per_event_mute_to_clip_mute(&mut song);
    assert!(!song.tracks[0].clips[0].muted);
}

#[test]
fn migrate_v25_text_overlay_adds_subtitle_device() {
    let mut song = song_with_one_text_clip(false);
    migrate_song(&mut song, 25);
    assert!(song.tracks[0].has_subtitle_device());
}

#[test]
fn migrate_skips_when_subtitle_device_already_present() {
    let mut song = song_with_one_text_clip(false);
    let ports = PortConfig { has_video_input: true, has_video_output: true, ..PortConfig::default() };
    let device = PluginInstance::with_ports(SUBTITLE_ID.to_string(), PluginFormat::Builtin, ports);
    song.tracks[0].devices.push(Device::Plugin(device));
    migrate_song(&mut song, 25);
    assert_eq!(song.tracks[0].devices.len(), 1);
}

#[test]
fn no_migration_for_current_version_text_clip() {
    let mut song = song_with_one_text_clip(false);
    migrate_song(&mut song, CURRENT_VERSION);
    assert!(!song.tracks[0].has_subtitle_device());
}
