use common::beat::Beat;
use common::model::{
    AutomationClip, AutomationLane, AutomationTarget, Clip, ClipContent, Device, MasterLimiterParam, ModRouting,
    NativeDevice, NativeKind, Parallel, ParallelChain, ParamStoreAt, PluginInstance, Scene, Send, SendMode,
    SessionAutomationClip, SessionClip, Song, Track, TrackBuiltinParam as B, MASTER_TRACK_ID,
};
use common::plugin_format::PluginFormat;
use common::song_index::{CoverIndex, EndTree, ParamStore, ParamStoreIndex, ParamSubject, RangeIndex, SongIndex};

fn beat(x: f64) -> Beat {
    Beat { bits: x.to_bits() }
}

fn beats(iv: &[(f64, f64)]) -> Vec<(Beat, Beat)> {
    iv.iter().map(|&(s, e)| (beat(s), beat(e))).collect()
}

fn plugin(device_id: u64, param_id: u32) -> AutomationTarget {
    AutomationTarget::PluginParam { device_id, param_id }
}

fn routing(id: u32, target: AutomationTarget) -> ModRouting {
    ModRouting { id, target, source_id: 1, depth: 0.5f32.to_bits(), enabled: true }
}

fn lane(id: u32, target: AutomationTarget, enabled: bool) -> AutomationLane {
    AutomationLane { id, enabled, ..AutomationLane::new(target, 0) }
}

fn plug(id: u64) -> Device {
    Device::Plugin(PluginInstance { id, ..PluginInstance::new(format!("p{id}"), PluginFormat::Clap) })
}

fn auto_clip(id: u32, start: f64, length: f64) -> AutomationClip {
    AutomationClip {
        id,
        start_beat: beat(start),
        length_beats: beat(length),
        end_beat: beat(start + length),
        content_id: 0,
        content_offset_beats: beat(0.0),
    }
}

fn clip(id: u32, start: f64, length: f64) -> Clip {
    Clip {
        id,
        start_beat: beat(start),
        length_beats: beat(length),
        end_beat: beat(start + length),
        content_id: 0,
        content_offset_beats: beat(0.0),
        xfade_lead_beats: beat(0.0),
        xfade_tail_beats: beat(0.0),
        muted: false,
    }
}

fn send(id: u32, gain: f32) -> Send {
    Send { id, dest_track_id: 6, gain: gain.to_bits(), mode: SendMode::PostFader, enabled: true }
}

#[test]
fn what_is_looked_up_is_what_a_walk_finds() {
    let volume = AutomationTarget::TrackBuiltin(B::Volume);
    let routings = vec![
        routing(1, plugin(7, 2)),
        routing(2, volume),
        routing(3, plugin(9, 1)),
        routing(4, plugin(7, 1)),
        routing(5, plugin(7, 2)),
    ];
    let lanes = vec![
        lane(1, plugin(7, 1), false),
        lane(2, volume, true),
        lane(3, plugin(7, 1), true),
        lane(4, plugin(9, 1), true),
    ];
    let index = ParamStoreIndex::build(&lanes, &routings);
    let store = ParamStore::new(&lanes, &routings, &index);

    let targets: Vec<(AutomationTarget, Vec<u32>)> = store
        .targets_of(ParamSubject::Plugin(7))
        .into_iter()
        .map(|(t, r)| (t, r.iter().iter().map(|r| r.id).collect()))
        .collect();
    assert_eq!(targets, vec![(plugin(7, 2), vec![1, 5]), (plugin(7, 1), vec![4])]);
    assert_eq!(store.routings_for(&volume).iter().iter().map(|r| r.id).collect::<Vec<_>>(), vec![2]);
    assert!(store.routings_for(&plugin(8, 1)).is_empty());

    let lanes_of_7: Vec<usize> = store.lanes_of(ParamSubject::Plugin(7)).iter().map(|v| v.pos).collect();
    assert_eq!(lanes_of_7, vec![0, 2]);
    assert_eq!(store.enabled_lane(&plugin(7, 1)).map(|v| v.pos), Some(2), "lanes that are off are passed over");
    assert_eq!(store.enabled_lane(&plugin(7, 2)).map(|v| v.pos), None);
    assert_eq!(store.lane_by_id(3).map(|v| v.pos), Some(2));
    assert!(store.lane_by_id(99).is_none());
}

#[test]
fn clips_and_cells_of_a_lane_are_those_that_a_walk_finds() {
    let mut l = lane(1, AutomationTarget::TrackBuiltin(B::Pan), true);
    l.clips = vec![auto_clip(1, 8.0, 4.0), auto_clip(2, 0.0, 4.0), auto_clip(3, 4.0, 0.0), auto_clip(4, 4.0, 4.0)];
    l.session_clips = vec![
        SessionAutomationClip { scene_id: 1, clip: auto_clip(7, 0.0, 1.0) },
        SessionAutomationClip { scene_id: 2, clip: auto_clip(5, 0.0, 2.0) },
    ];
    let lanes = vec![l];
    let none: Vec<ModRouting> = Vec::new();
    let index = ParamStoreIndex::build(&lanes, &none);
    let view = ParamStore::new(&lanes, &none, &index).lane(0).unwrap();
    let linear = |x: f64| {
        let spans = [(1, 8.0, 4.0), (2, 0.0, 4.0), (3, 4.0, 0.0), (4, 4.0, 4.0)];
        spans.iter().find(|&&(_, s, l)| l > 0.0 && x >= s && x < s + l).map(|c| c.0)
    };
    for x in [-1.0, 0.0, 3.9, 4.0, 7.99, 8.0, 12.0, 20.0] {
        assert_eq!(view.arrangement_clip(beat(x)).map(|c| c.id), linear(x), "x={x}");
    }
    assert_eq!(view.cell(5).map(|c| c.scene_id), Some(2));
    assert!(view.cell(6).is_none());
    assert_eq!((view.session_cells().clip_pos(5), view.session_cells().scene_pos(1)), (Some(1), Some(0)));
}

#[test]
fn an_index_of_other_numbers_finds_nothing() {
    let routings = vec![routing(1, plugin(7, 1))];
    let lanes: Vec<AutomationLane> = Vec::new();
    let index = ParamStoreIndex::build(&lanes, &routings);
    let fewer: Vec<ModRouting> = Vec::new();
    let store = ParamStore::new(&lanes, &fewer, &index);
    assert_eq!(store.targets_of(ParamSubject::Plugin(7)).len(), 0);
}

fn native(id: u64, ordinal: u32) -> Device {
    Device::Native(NativeDevice::new_added(NativeKind::Comp, id, ordinal))
}

fn first_native(devices: &[Device], id: u64) -> Option<&NativeDevice> {
    for d in devices {
        match d {
            Device::Native(n) if n.id == id => return Some(n),
            Device::Parallel(p) => {
                for c in &p.chains {
                    if let Some(n) = first_native(&c.devices, id) {
                        return Some(n);
                    }
                }
            }
            _ => {}
        }
    }
    None
}

#[test]
fn devices_chains_and_tracks_are_those_that_the_song_finds() {
    let chain = |id: u64, name: &str, devices: Vec<Device>| ParallelChain { id, name: name.into(), devices };
    let inner = Parallel { id: 20, chains: vec![chain(11, "in", vec![plug(22), native(51, 1)])] };
    let outer = Parallel {
        id: 10,
        chains: vec![
            chain(11, "a", vec![plug(12), native(50, 2)]),
            chain(13, "b", vec![Device::Parallel(inner), plug(14)]),
        ],
    };
    let mut t1 = Track { id: 5, devices: vec![plug(1), Device::Parallel(outer)], ..Track::default() };
    t1.sends = vec![send(3, 0.5), send(2, 0.25)];
    let t2 = Track { id: 6, devices: vec![plug(51), native(51, 3), plug(30)], ..Track::default() };
    let song = Song {
        tracks: vec![t1, t2],
        master_fx_chain: vec![plug(40), native(50, 4)],
        scenes: vec![Scene::new(9), Scene::new(4)],
        ..Song::default()
    };
    let index = SongIndex::build(&song);
    for id in [1, 10, 12, 14, 20, 22, 30, 40, 11, 50, 51, 99] {
        let found = index.device(&song, id).map(|d| format!("{d:?}"));
        assert_eq!(found, song.device_by_id(id).map(|d| format!("{d:?}")), "device {id}");
    }
    for (parallel_id, chain_id) in [(10, 11), (10, 13), (20, 11), (20, 13), (12, 11), (99, 11)] {
        let got = index.chain_in(&song, parallel_id, chain_id).map(|c| &c.name);
        let want = song
            .parallel_by_id(parallel_id)
            .and_then(|p| p.chains.iter().find(|c| c.id == chain_id))
            .map(|c| &c.name);
        assert_eq!(got, want, "chain {chain_id} in {parallel_id}");
    }
    assert_eq!(index.chain_in(&song, 20, 11).map(|c| c.name.as_str()), Some("in"));
    let owners = [ParamStoreAt::Track(0), ParamStoreAt::Track(1), ParamStoreAt::Song];
    let lists = [&song.tracks[0].devices, &song.tracks[1].devices, &song.master_fx_chain];
    for (owner, devices) in owners.into_iter().zip(lists) {
        for id in [1, 10, 14, 22, 30, 40, 50, 51] {
            let got = index.native_in(&song, owner, id).map(|n| n.ordinal);
            assert_eq!(got, first_native(devices, id).map(|n| n.ordinal), "native {id} in {owner:?}");
        }
    }
    assert_eq!(index.parallel(&song, 20).map(|p| p.id), Some(20));
    assert!(index.parallel(&song, 22).is_none(), "a plugin is no rack");
    assert_eq!((index.track_pos(6), index.track_pos(7)), (Some(1), None));
    assert_eq!((index.scene_pos(4), index.scene_pos(5)), (Some(1), None));
    assert_eq!(index.send(&song, 0, 2).map(|s| s.gain), Some(0.25f32.to_bits()));
    assert!(index.send(&song, 1, 2).is_none());
}

#[test]
fn an_index_read_with_another_song_does_no_harm() {
    let chain = |id: u64, devices: Vec<Device>| ParallelChain { id, name: String::new(), devices };
    let rack = |id: u64, chains: Vec<ParallelChain>| Device::Parallel(Parallel { id, chains });
    let mut t1 = Track {
        id: 5,
        devices: vec![plug(1), rack(10, vec![chain(11, vec![native(12, 1)])])],
        ..Track::default()
    };
    t1.sends = vec![send(3, 0.5), send(2, 0.25)];
    t1.session_clips = vec![session_clip(10, 2, 3.0), session_clip(11, 1, 8.0)];
    t1.automation_lanes = vec![lane(4, AutomationTarget::TrackBuiltin(B::Pan), true)];
    t1.mod_routings = vec![routing(1, plugin(7, 1))];
    let t2 = Track { id: 6, devices: vec![plug(30)], ..Track::default() };
    let song = Song { tracks: vec![t1, t2], master_fx_chain: vec![native(50, 4)], ..Song::default() };
    let index = SongIndex::build(&song);

    let none = Song::default();
    assert!(index.device(&none, 1).is_none() && index.device(&none, 50).is_none());
    assert!(index.parallel(&none, 10).is_none() && index.chain_in(&none, 10, 11).is_none());
    assert!(index.native_in(&none, ParamStoreAt::Track(0), 12).is_none());
    assert!(index.native_in(&none, ParamStoreAt::Song, 50).is_none());
    assert!(index.send(&none, 0, 3).is_none() && index.track_cell(&none, 0, 10).is_none());
    assert!(index.track_cells(&none, 0).is_none() && index.launcher_row(&none, 0).is_none());
    assert!(index.lane_cells(&none, ParamStoreAt::Track(0), 0).is_none());
    assert!(index.store(&none, ParamStoreAt::Track(0)).lane(0).is_none());

    let empty = SongIndex::build(&none);
    assert!(empty.device(&song, 1).is_none() && empty.chain_in(&song, 10, 11).is_none());
    assert!(empty.native_in(&song, ParamStoreAt::Track(0), 12).is_none());
    assert!(empty.send(&song, 0, 3).is_none() && empty.track_cell(&song, 0, 10).is_none());
    assert!(empty.track_store(&song, 0).lane(0).is_none());
    assert_eq!(empty.track_cells(&song, 0).unwrap().clip_pos(10), None, "there are cells, but nothing finds them");

    let mut later = Song { master_fx_chain: vec![native(50, 9)], ..Song::default() };
    let mut t = Track {
        id: 5,
        devices: vec![plug(2), rack(10, vec![chain(13, vec![native(12, 8)])])],
        ..Track::default()
    };
    t.sends = vec![send(7, 1.0)];
    t.session_clips = vec![session_clip(20, 2, 3.0), session_clip(21, 1, 8.0)];
    t.automation_lanes = vec![lane(9, AutomationTarget::TrackBuiltin(B::Pan), true)];
    later.tracks = vec![t];
    assert!(index.device(&later, 1).is_none(), "another device is there");
    assert!(index.device(&later, 2).is_none(), "the index does not know it");
    assert!(index.device(&later, 30).is_none(), "the track is gone");
    assert_eq!(index.parallel(&later, 10).map(|p| p.id), Some(10));
    assert!(index.chain_in(&later, 10, 11).is_none(), "another chain is there");
    assert_eq!(index.native_in(&later, ParamStoreAt::Track(0), 12).map(|n| n.ordinal), Some(8));
    assert_eq!(index.native_in(&later, ParamStoreAt::Song, 50).map(|n| n.ordinal), Some(9), "the master stays the master");
    assert_eq!(index.send(&later, 0, 3).map(|s| s.id), Some(7), "the send at its place");
    assert!(index.send(&later, 0, 2).is_none());
    assert_eq!(index.track_cell(&later, 0, 11).map(|c| c.clip.id), Some(21), "the cell at its place");
    assert!(index.track_store(&later, 0).lane(0).is_none(), "there are fewer routings");
    let row = index.launcher_row(&later, 1).unwrap();
    assert_eq!((row.track_id, row.lane_id), (5, 4));
    assert!(index.launcher_row(&later, 2).is_none(), "the second track is gone");

    later.tracks[0].mod_routings = vec![routing(8, plugin(9, 1))];
    let store = index.track_store(&later, 0);
    assert_eq!(store.lane_by_id(4).map(|v| v.lane.id), Some(9), "the lane at its place");
    let found = store.targets_of(ParamSubject::Plugin(7));
    assert_eq!(found.len(), 1);
    assert_eq!(found[0].0, plugin(9, 1), "its target is what it is now");
    assert!(store.routings_for(&plugin(7, 1)).is_empty());
}

fn session_clip(id: u32, scene_id: u32, length: f64) -> SessionClip {
    SessionClip { scene_id, clip: clip(id, 0.0, length) }
}

#[test]
fn rows_and_cells_of_the_launcher_are_those_that_a_walk_finds() {
    let mut t1 = Track { id: 5, ..Track::default() };
    t1.session_clips = vec![session_clip(10, 2, 3.0), session_clip(11, 1, 8.0), session_clip(12, 2, 16.0)];
    let mut pan = lane(4, AutomationTarget::TrackBuiltin(B::Pan), true);
    pan.session_clips = vec![SessionAutomationClip { scene_id: 2, clip: auto_clip(7, 0.0, 6.0) }];
    t1.automation_lanes = vec![pan];
    let t2 = Track { id: 6, ..Track::default() };
    let mut song = Song { tracks: vec![t1, t2], ..Song::default() };
    let mut master = lane(9, AutomationTarget::MasterLimiter(MasterLimiterParam::Ceiling), true);
    master.session_clips = vec![SessionAutomationClip { scene_id: 3, clip: auto_clip(1, 0.0, 2.0) }];
    song.song_lanes = vec![lane(8, AutomationTarget::SongTempo, true), master];
    let index = SongIndex::build(&song);

    let keys: Vec<(u32, u32)> = (0..index.launcher_row_count()).filter_map(|i| index.launcher_row_key(i)).collect();
    assert_eq!(keys, vec![(5, 0), (5, 4), (6, 0), (MASTER_TRACK_ID, 9)]);
    assert_eq!(index.launcher_row_pos(6, 0), Some(2));
    assert!(index.launcher_row_pos(MASTER_TRACK_ID, 8).is_none(), "the tempo has no row");

    let row = index.launcher_row(&song, 0).unwrap();
    assert_eq!((row.cells.clip_pos(12), row.cells.scene_pos(2), row.cells.scene_pos(9)), (Some(2), Some(0), None));
    assert_eq!(index.track_cell(&song, 0, 11).map(|c| c.scene_id), Some(1));
    assert!(index.track_cell(&song, 0, 7).is_none());
    assert!(index.track_cell(&song, 2, 11).is_none());
    assert!(index.track_clips(1).unwrap().built_for(0));
    assert!(index.track_clips(2).is_none());
    assert_eq!(index.scene_longest(2), Some(beat(6.0)), "of every row the first cell of the column counts");
    assert_eq!(
        (index.scene_longest(1), index.scene_longest(3), index.scene_longest(4)),
        (Some(beat(8.0)), Some(beat(2.0)), None)
    );
}

#[test]
fn cover_index_finds_what_a_walk_finds() {
    let iv = [(0.0, 4.0), (2.0, 6.0), (6.0, 6.0), (8.0, 7.0), (f64::NAN, 9.0), (6.0, 10.0), (-1.0, 0.0)];
    let index = CoverIndex::build(&beats(&iv));
    let linear = |x: f64| iv.iter().position(|&(s, e)| s < e && s <= x && x < e);
    for x in [-2.0, -1.0, -0.0, 0.0, 1.0, 2.0, 3.999, 4.0, 5.0, 6.0, 7.5, 9.999, 10.0, f64::NAN] {
        assert_eq!(index.first_covering(beat(x)), linear(x), "x={x}");
    }
}

#[test]
fn end_tree_gives_what_ends_late_enough_in_order() {
    let ends = [100.0, 1.0, 2.0, f64::NAN, 5.0, 0.5, 7.0, 3.0, f64::NEG_INFINITY, 4.0];
    let tree = EndTree::build(&ends.iter().map(|&e| beat(e)).collect());
    for before in 0..=ends.len() + 2 {
        for lo in [f64::NEG_INFINITY, 0.0, 1.0, 2.5, 4.0, 6.0, 100.0, 200.0] {
            let got: Vec<usize> = tree.reaching(before, beat(lo));
            let want: Vec<usize> =
                (0..before.min(ends.len())).filter(|&k| ends[k].is_nan() || ends[k] >= lo).collect();
            assert_eq!(got, want, "before={before} lo={lo}");
        }
    }
    assert_eq!(EndTree::build(&Vec::new()).reaching(3, beat(0.0)).len(), 0);
}

#[test]
fn range_index_gives_what_meets_a_window_in_order() {
    let iv = [(5.0, 6.0), (0.0, 10.0), (2.0, 3.0), (7.0, f64::NAN), (f64::NAN, 1.0), (4.0, 4.0)];
    let index = RangeIndex::build(&beats(&iv));
    let mut buf = [0u32; 8];
    let n = index.overlapping(beat(3.5), beat(4.5), &mut buf).unwrap();
    assert_eq!(&buf[..n], &[1, 5]);
    let n = index.overlapping(beat(2.5), beat(7.0), &mut buf).unwrap();
    assert_eq!(&buf[..n], &[0, 1, 2, 3, 5]);
    let mut small = [0u32; 1];
    assert_eq!(index.overlapping(beat(0.0), beat(100.0), &mut small), None);
    assert_eq!(index.overlapping(beat(f64::NAN), beat(1.0), &mut buf), None);
    assert!(index.built_for(6) && !index.built_for(5));
}

#[test]
fn contents_are_found_by_where_their_events_are() {
    let mut song = Song::default();
    song.clip_contents.push((4, ClipContent::Midi(Vec::new())));
    let index = SongIndex::build(&song);
    assert!(index.content_ranges(4).is_some());
    assert!(index.content_ranges(5).is_none());
}
