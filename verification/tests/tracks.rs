use common::beat::Beat;
use common::model::{
    AutomationClip, AutomationLane, AutomationTarget, AuxInputRoute, Clip, Device, GroupTransform, ModRouting, ModSource, Parallel, ParallelChain, PluginInstance, RowPlayback, Send,
    SendMode, Song, TapPoint, TapSource, Track, TrackBuiltinParam, MASTER_TRACK_ID,
};
use common::model::track::MAX_TRACK_GAIN;
use common::plugin_format::PluginFormat;
use common::setting::Setting;
use common::transpose::{
    quantize_transpose, sounding_key, transpose_in_clip, transpose_lane, TrackTranspose, TransposeCurve,
};

fn mk(id: u32, parent: Option<u32>) -> Track {
    Track { id, parent_group_id: parent, ..Track::default() }
}

/// A group (10) with a child 11, a child 12 of that, and 13 on its own.
fn song() -> Song {
    Song { tracks: vec![mk(10, None), mk(11, Some(10)), mk(12, Some(11)), mk(13, None)], ..Song::default() }
}

fn mask_of(song: &Song) -> Vec<bool> {
    song.tracks.iter().map(|t| song.track_effectively_enabled(t.id)).collect()
}

fn track_mut(song: &mut Song, id: u32) -> &mut Track {
    song.tracks.iter_mut().find(|t| t.id == id).unwrap()
}

fn plugin(id: u64) -> Device {
    Device::Plugin(PluginInstance { id, ..PluginInstance::new("p".into(), PluginFormat::Clap) })
}

#[test]
fn a_group_that_is_off_takes_its_children_along_and_gives_them_back_as_they_were() {
    let mut s = song();
    assert_eq!(mask_of(&s), vec![true, true, true, true]);
    assert!(s.set_tracks_enabled(&[12], false));
    assert_eq!(mask_of(&s), vec![true, true, false, true]);
    assert!(s.set_tracks_enabled(&[10], false));
    assert_eq!(mask_of(&s), vec![false, false, false, true]);
    assert_eq!(s.effectively_enabled_mask(), mask_of(&s), "the mask and the single question agree");
    assert!(s.set_tracks_enabled(&[10], true));
    assert_eq!(mask_of(&s), vec![true, true, false, true]);
    assert!(!s.set_tracks_enabled(&[10, MASTER_TRACK_ID, 999], true));
    assert!(s.track_effectively_enabled(MASTER_TRACK_ID));
    assert!(!s.track_effectively_enabled(999));
}

#[test]
fn tracks_with_a_loading_plugin_and_the_children_of_such_groups_do_not_run() {
    let mut s = song();
    s.tracks[0].devices = vec![plugin(100)];
    let chain = ParallelChain { id: 0, name: String::new(), devices: vec![plugin(120)] };
    s.tracks[2].devices = vec![Device::Parallel(Parallel { id: 0, chains: vec![chain] })];
    s.tracks[3].devices = vec![plugin(130)];

    let loading = |want: u64| move |p: &PluginInstance| p.id == want;
    assert_eq!(s.executable_mask(|_: &PluginInstance| false), s.effectively_enabled_mask(), "nothing is loading");
    assert_eq!(s.executable_mask(loading(120)), vec![true, true, false, true], "inside a rack");
    assert_eq!(s.executable_mask(loading(100)), vec![false, false, false, true], "what a group waits for");
    assert_eq!(s.executable_mask(loading(999)), vec![true; 4], "a device that is not in the song");
    s.set_tracks_enabled(&[13], false);
    assert_eq!(s.executable_mask(loading(120)), vec![true, true, false, false]);
    assert!(s.track_effectively_enabled(12));
}

#[test]
fn switching_off_disarms_and_stops_the_launcher() {
    let mut s = song();
    for t in &mut s.tracks {
        t.armed = true;
        t.launcher = RowPlayback::Launcher { clip_id: 1 };
        t.automation_lanes.push(AutomationLane {
            id: 1,
            target: AutomationTarget::TrackBuiltin(TrackBuiltinParam::Volume),
            enabled: true,
            default_value: 1.0f64.to_bits(),
            clips: Vec::new(),
            next_clip_id: 1,
            session_clips: Vec::new(),
            launcher: RowPlayback::Launcher { clip_id: 2 },
        });
    }
    s.set_tracks_enabled(&[11], false);
    for t in &s.tracks {
        let off = matches!(t.id, 11 | 12);
        assert_eq!(t.armed, !off, "track {}", t.id);
        let want = if off { RowPlayback::LauncherStopped } else { RowPlayback::Launcher { clip_id: 1 } };
        assert_eq!(t.launcher, want, "track {}", t.id);
        let lane_want = if off { RowPlayback::LauncherStopped } else { RowPlayback::Launcher { clip_id: 2 } };
        assert_eq!(t.automation_lanes[0].launcher, lane_want, "lane of track {}", t.id);
    }
    s.set_tracks_enabled(&[11], true);
    assert!(!s.track_by_id(11).unwrap().armed);
    assert_eq!(s.track_by_id(12).unwrap().launcher, RowPlayback::LauncherStopped);

    s.set_tracks_enabled(&[10], false);
    assert_eq!(s.move_tracks(&[13], Some(10), Some(12)).ok(), Some(true));
    let moved = s.track_by_id(13).unwrap();
    assert!(!moved.armed, "nothing is armed in a group that is off");
    assert_eq!(moved.launcher, RowPlayback::LauncherStopped, "nothing starts again when the group is back");
}

#[test]
fn tracks_that_are_off_are_hidden_and_neither_their_solo_nor_their_sources_count() {
    let mut s = song();
    track_mut(&mut s, 13).solo = true;
    assert!(s.track_visually_silenced(10), "the solo of 13 hides the others");
    s.set_tracks_enabled(&[13], false);
    assert!(s.track_visually_silenced(13), "a track that is off is hidden itself");
    assert!(!s.track_visually_silenced(10), "its solo hides nothing");
    s.set_tracks_enabled(&[13], true);
    track_mut(&mut s, 13).solo = false;
    track_mut(&mut s, 12).solo = true;
    track_mut(&mut s, 12).enabled = false;
    assert!(!s.track_visually_silenced(10), "there is no solo that counts");

    let src = |owner: u32| ModSource { id: 1, owner_track_id: owner, enabled: true };
    assert!(!s.mod_source_active(&src(12)));
    assert!(s.mod_source_active(&src(11)));
    assert!(s.mod_source_active(&src(MASTER_TRACK_ID)));
    assert!(!s.mod_source_active(&ModSource { enabled: false, ..src(11) }));
}

#[test]
fn following_is_decided_by_every_group_above() {
    let mut song =
        Song { tracks: vec![mk(1, None), mk(2, Some(1)), mk(3, Some(2)), mk(4, None)], ..Song::default() };
    assert!([1, 2, 3, 4].iter().all(|&id| song.track_follows_transpose(id)), "all follow");
    track_mut(&mut song, 1).follow_transpose = false;
    assert_eq!([1, 2, 3, 4].map(|id| song.track_follows_transpose(id)), [false, false, false, true]);
    track_mut(&mut song, 1).follow_transpose = true;
    track_mut(&mut song, 2).follow_transpose = false;
    assert_eq!([1, 2, 3, 4].map(|id| song.track_follows_transpose(id)), [true, false, false, true]);
    assert!(!song.track_follows_transpose(99), "a track that is not there");
}

#[test]
fn a_cycle_of_groups_is_gone_through_once() {
    let s = Song { tracks: vec![mk(1, Some(2)), mk(2, Some(1))], ..Song::default() };
    assert!(s.track_effectively_enabled(1));
    assert_eq!(s.effectively_enabled_mask(), vec![true, true]);
    assert_eq!(s.follows_transpose_mask(), vec![true, true]);
}

#[test]
fn live_plugins_are_those_of_tracks_that_run() {
    let mut s = song();
    s.tracks[1].devices = vec![plugin(1)];
    s.tracks[3].devices = vec![plugin(2)];
    s.master_fx_chain = vec![plugin(3)];
    s.set_tracks_enabled(&[10], false);
    let ids: Vec<u64> = s.live_plugins().iter().map(|p| p.id).collect();
    assert_eq!(ids, vec![2, 3]);
}

#[test]
fn keys_off_the_keyboard_do_not_sound() {
    assert_eq!(sounding_key(60, 3), Some(63));
    assert_eq!(sounding_key(127, 1), None);
    assert_eq!(sounding_key(0, -1), None);
    let s = Song { transpose: 3, ..song() };
    assert_eq!(TrackTranspose::of(&s, 10).key(60, 3), Some(63));
    assert_eq!(TrackTranspose::of(&s, 999).key(60, 3), Some(60), "a track that does not follow");
    assert_eq!(TrackTranspose::written().key(60, 3), Some(60));
}

fn clip(id: u32) -> Clip {
    let zero = Beat { bits: 0 };
    Clip {
        id,
        start_beat: zero,
        length_beats: zero,
        end_beat: zero,
        content_id: 0,
        content_offset_beats: zero,
        xfade_lead_beats: zero,
        xfade_tail_beats: zero,
        muted: false,
    }
}

fn send(id: u32) -> Send {
    Send { id, dest_track_id: 2, gain: 1.0f32.to_bits(), mode: SendMode::PostFader, enabled: true }
}

#[test]
fn clips_lanes_and_sends_are_numbered_and_found() {
    let mut t = Track { clips: vec![clip(0), clip(7), clip(0)], ..Track::default() };
    t.next_clip_id = 0;
    t.ensure_clip_ids();
    let ids: Vec<u32> = t.clips.iter().map(|c| c.id).collect();
    assert_eq!((ids, t.next_clip_id), (vec![1, 7, 8], 9));
    assert_eq!(t.alloc_clip_id(), 9);
    assert_eq!(t.clip_by_id(7).map(|c| c.id), Some(7));
    assert!(t.clip_by_id(9).is_none());
    t.clip_by_id_mut(7).unwrap().muted = true;
    assert_eq!(t.clips.iter().map(|c| c.muted).collect::<Vec<bool>>(), vec![false, true, false]);

    t.automation_lanes = vec![AutomationLane::new(AutomationTarget::SongTempo, 0), AutomationLane::new(AutomationTarget::SongTempo, 0)];
    t.next_lane_id = 4;
    t.ensure_lane_ids();
    assert_eq!((t.automation_lanes[0].id, t.automation_lanes[1].id, t.next_lane_id), (4, 5, 6));
    assert_eq!(t.alloc_lane_id(), 6);
    t.lane_by_id_mut(5).unwrap().enabled = false;
    assert!(!t.automation_lanes[1].enabled);
    assert!(t.lane_by_id_mut(6).is_none());

    t.sends = vec![send(3), send(0)];
    t.next_send_id = 1;
    t.ensure_send_ids();
    assert_eq!((t.sends[0].id, t.sends[1].id, t.next_send_id), (3, 4, 5));
    assert_eq!((t.alloc_send_id(), t.next_send_id), (5, 6));
}

#[test]
fn the_split_comes_behind_the_last_device_with_parallel_outputs() {
    let out = |first: Option<u32>, second: Option<u32>| {
        let p = PluginInstance::new("p".into(), PluginFormat::Clap);
        Device::Plugin(PluginInstance { aux_outputs: vec![first, second], ..p })
    };
    let mut t = mk(1, None);
    t.devices = vec![plugin(1), plugin(2)];
    assert_eq!((t.paraout_split_device(), t.paraout_main_to_child()), (None, false));
    t.devices = vec![plugin(1), out(None, Some(5)), plugin(2)];
    assert_eq!((t.paraout_split_device(), t.paraout_main_to_child()), (Some(2), false));
    t.devices.push(out(Some(6), None));
    assert_eq!((t.paraout_split_device(), t.paraout_main_to_child()), (Some(4), true));
}

#[test]
fn rows_of_tracks_that_are_off_are_stopped_and_stay_armed() {
    let mut s = song();
    for t in &mut s.tracks {
        t.armed = true;
        t.launcher = RowPlayback::Launcher { clip_id: 1 };
    }
    s.tracks[1].enabled = false;
    s.stop_launcher_rows_on_disabled_tracks();
    let playing: Vec<bool> = s.tracks.iter().map(|t| t.launcher == RowPlayback::Launcher { clip_id: 1 }).collect();
    assert_eq!(playing, vec![true, false, false, true]);
    assert!(s.tracks.iter().all(|t| t.armed));
}

#[test]
fn the_song_is_transposed_within_bounds() {
    let mut s = song();
    assert!(!s.transpose_can_be_nonzero());
    s.transpose = -3;
    assert!(s.transpose_can_be_nonzero());
    assert_eq!(TransposeCurve::of(&s).base(), -3);
    s.transpose = 100;
    assert_eq!(TransposeCurve::of(&s).base(), 24);
    s.transpose = -100;
    assert_eq!(TransposeCurve::of(&s).base(), -24);
    s.transpose = 0;
    s.song_lanes = vec![AutomationLane { enabled: false, ..AutomationLane::new(AutomationTarget::SongTranspose, 0) }];
    assert!(!s.transpose_can_be_nonzero(), "a lane that is off decides nothing");
    s.song_lanes[0].enabled = true;
    assert!(s.transpose_can_be_nonzero());
    s.song_lanes.clear();
    let r = ModRouting { id: 1, target: AutomationTarget::SongTranspose, source_id: 1, depth: 0, enabled: true };
    s.song_mod_routings = vec![r];
    assert!(s.transpose_can_be_nonzero());
}

#[test]
fn a_sidechain_of_a_track_is_tapped_behind_its_fader() {
    let route = AuxInputRoute::post_fader(3);
    assert_eq!((route.tap.source, route.tap.tap_point), (TapSource::Track(3), TapPoint::PostFader));
}

#[test]
fn tracks_and_pictures_start_as_they_are() {
    let set = |x: f32| Setting { bits: x.to_bits() };
    let t = Track::default();
    assert_eq!((t.volume, t.pan, t.color, t.group_transform), (set(1.0), set(0.0), None, None));
    assert_eq!(MAX_TRACK_GAIN, 2.0f32.to_bits());
    let g = GroupTransform::default();
    assert_eq!((g.x, g.y, g.rotation_radians), (set(0.0), set(0.0), set(0.0)));
    assert_eq!((g.scale_x, g.scale_y, g.opacity), (set(1.0), set(1.0), set(1.0)));
    assert_eq!((g.anchor_x, g.anchor_y), (set(0.5), set(0.5)));
}

fn at(x: f64) -> Beat {
    Beat { bits: x.to_bits() }
}

#[test]
fn numbers_are_rounded_to_semitones_within_bounds() {
    let q = |x: f64| quantize_transpose(at(x));
    assert_eq!([q(0.0), q(-0.0), q(0.49), q(0.5), q(-0.5), q(2.8), q(-2.4)], [0, 0, 0, 1, -1, 3, -2]);
    assert_eq!([q(23.4), q(23.5), q(24.6), q(-1e300)], [23, 24, 24, -24]);
    assert_eq!([q(f64::NAN), q(f64::INFINITY), q(f64::NEG_INFINITY)], [0, 0, 0]);
    for i in -2600..=2600 {
        let x = f64::from(i) / 100.0;
        assert_eq!(q(x), x.round().clamp(-24.0, 24.0) as i32, "{x}");
    }
}

#[test]
fn the_lane_decides_over_the_song_and_modulation_over_the_lane() {
    let mut s = Song { transpose: 3, ..song() };
    assert_eq!(TransposeCurve::of(&s).at(at(7.0)), 3, "no lane decides");
    assert!(TransposeCurve::of(&s).lane_at(at(7.0)).is_none() && transpose_lane(&s).is_none());
    let mut lane = AutomationLane::new(AutomationTarget::SongTranspose, 0);
    lane.id = 1;
    lane.clips.push(AutomationClip {
        id: 4,
        start_beat: at(0.0),
        length_beats: at(4.0),
        end_beat: at(4.0),
        content_id: 9,
        content_offset_beats: at(0.0),
    });
    s.song_lanes.push(lane);
    let curve = TransposeCurve::of(&s);
    let clip_at = |x: f64| curve.lane_at(at(x)).unwrap().1.map(|c| c.id);
    assert_eq!([clip_at(2.0), clip_at(8.0)], [Some(4), None]);
    assert_eq!([curve.at(at(4.0)), curve.at(at(2.8)), curve.at(at(-1.0))], [4, 3, -1]);
    assert_eq!(curve.base(), 3, "what has no place goes by the song");
    assert_eq!(transpose_in_clip(&s, at(4.0), None), 4);
    assert_eq!(transpose_in_clip(&s, at(4.0), Some(at(28.0))), 24);
    assert_eq!([sounding_key(60, 2), sounding_key(126, 2), sounding_key(1, -2)], [Some(62), None, None]);
}
