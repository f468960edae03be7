use common::model::{
    AudioTap, AuxInputRoute, Device, NativeDevice, NativeKind, Parallel, ParallelChain, PluginInstance, Send, SendMode,
    Song, TapPoint, TapSource, Track,
};
use common::plugin_format::PluginFormat;
use common::routing_deps::{DependencyCycle, EdgeScope, TrackDeps};

fn route(source: TapSource) -> Option<AuxInputRoute> {
    Some(AuxInputRoute { tap: AudioTap { source, tap_point: TapPoint::PostFader } })
}

fn sc_plugin(id: u64, source: TapSource, bypassed: bool) -> Device {
    let mut p = PluginInstance::new(format!("p{id}"), PluginFormat::Clap);
    p.id = id;
    p.bypassed = bypassed;
    p.aux_inputs = vec![route(source)];
    Device::Plugin(p)
}

fn comp(id: u64) -> Device {
    Device::Native(NativeDevice::new_builtin(NativeKind::Comp, id))
}

fn send(dest: u32) -> Send {
    Send { id: 1, dest_track_id: dest, gain: 1.0f32.to_bits(), mode: SendMode::PostFader, enabled: true }
}

/// A group G with a child A, and B on its own.
fn song(mut a_devices: Vec<Device>) -> Song {
    let chain = ParallelChain { id: 51, name: String::new(), devices: Vec::new() };
    a_devices.push(Device::Parallel(Parallel { id: 50, chains: vec![chain] }));
    Song {
        tracks: vec![
            Track { id: 1, name: "G".into(), devices: vec![comp(10)], ..Track::default() },
            Track { id: 2, name: "A".into(), parent_group_id: Some(1), devices: a_devices, ..Track::default() },
            Track { id: 3, name: "B".into(), devices: vec![comp(30)], ..Track::default() },
        ],
        ..Song::default()
    }
}

#[test]
fn track_deps_detect_cycles_through_children_sidechain_and_sends() {
    let mut s = song(vec![comp(20)]);
    let deps = TrackDeps::build(&s, EdgeScope::Wired);
    assert!(deps.would_cycle(2, 1), "A reading G");
    assert!(!deps.would_cycle(1, 3) && !deps.would_cycle(2, 3));
    assert!(!s.set_aux_input(20, 0, Some(TapSource::Track(1))));
    assert_eq!(s.native_by_id(20).unwrap().aux_input, None);
    assert!(s.set_aux_input(20, 0, Some(TapSource::Track(3))), "a track on its own");
    assert!(s.set_aux_input(20, 0, Some(TapSource::Track(2))), "its own track");
    assert_eq!(s.native_by_id(20).unwrap().aux_input.unwrap().tap.tap_point, TapPoint::PreFx, "its own input");
    assert!(!s.set_aux_input(20, 0, Some(TapSource::Track(2))), "no change");
    assert!(TrackDeps::build(&s, EdgeScope::Active).dependency_order().is_ok());

    let s = song(vec![sc_plugin(21, TapSource::Track(1), true)]);
    assert!(TrackDeps::build(&s, EdgeScope::Active).dependency_order().is_ok());
    assert_eq!(TrackDeps::build(&s, EdgeScope::Wired).dependency_order(), Err(DependencyCycle));
    let mut s2 = s.clone();
    assert_eq!(s2.drop_cyclic_aux_routes(&[99]), 0, "nothing was brought");
    assert_eq!(s2.drop_cyclic_aux_routes(&[21]), 1, "what was brought is judged");
    assert!(TrackDeps::build(&s2, EdgeScope::Wired).dependency_order().is_ok());

    let s = song(vec![sc_plugin(22, TapSource::Chain(51), false)]);
    let order = TrackDeps::build(&s, EdgeScope::Active).dependency_order().expect("its own chain is no cycle");
    assert_eq!(order.len(), 3);
    let a = order.iter().position(|&i| i == 1).unwrap();
    let g = order.iter().position(|&i| i == 0).unwrap();
    assert!(a < g, "children come first: {order:?}");

    let s = song(vec![]);
    assert!(!s.can_add_send(1, 2));
    assert!(s.can_add_send(3, 2));
    let mut looped = s.clone();
    looped.tracks[0].sends.push(send(2));
    assert_eq!(TrackDeps::build(&looped, EdgeScope::Active).dependency_order(), Err(DependencyCycle));
}

#[test]
fn drop_cyclic_aux_routes_judges_routes_reading_carried_chains() {
    let mut s = song(vec![]);
    s.tracks[2].parent_group_id = Some(1);
    s.tracks.push(Track { id: 4, name: "C".into(), ..Track::default() });
    let mut reader = sc_plugin(40, TapSource::Chain(51), false);
    if let Device::Plugin(p) = &mut reader {
        p.aux_inputs.push(route(TapSource::Track(4)));
    }
    s.tracks[2].devices.push(reader);
    let parallel = s.tracks[1].devices.pop().expect("parallel");
    assert_eq!(parallel.id(), 50);
    s.tracks[0].devices.push(parallel);
    assert_eq!(s.drop_cyclic_aux_routes(&[50, 51]), 1);
    let p = s.plugin_by_id(40).expect("reader");
    assert_eq!(p.aux_inputs[0], None, "the route that reads the chain");
    assert!(p.aux_inputs[1].is_some(), "another route");
}

#[test]
fn move_tracks_rejects_only_new_dependency_cycles() {
    let mut s = song(vec![]);
    assert!(s.set_aux_input(30, 0, Some(TapSource::Track(1))));
    let before = format!("{s:?}");
    assert_eq!(s.move_tracks(&[3], Some(1), Some(2)), Err(DependencyCycle));
    assert_eq!(format!("{s:?}"), before, "nothing is written");
    let mut s = song(vec![]);
    s.tracks[0].sends.push(send(3));
    assert_eq!(s.move_tracks(&[3], Some(1), Some(2)), Err(DependencyCycle));
    let mut s = song(vec![]);
    assert_eq!(s.move_tracks(&[1], Some(2), None), Err(DependencyCycle));
    assert_eq!(s.move_tracks(&[1], Some(1), None), Err(DependencyCycle), "itself");

    let ids = |s: &Song| s.tracks.iter().map(|t| (t.id, t.parent_group_id)).collect::<Vec<_>>();
    assert_eq!(s.move_tracks(&[3], Some(1), Some(2)), Ok(true));
    assert_eq!(ids(&s), [(1, None), (2, Some(1)), (3, Some(1))]);
    assert_eq!(s.move_tracks(&[3], Some(1), Some(2)), Ok(false), "no change");
    assert_eq!(s.move_tracks(&[3], None, None), Ok(true));
    assert_eq!(ids(&s), [(3, None), (1, None), (2, Some(1))], "to the front");
    assert_eq!(s.move_tracks(&[3], Some(99), None), Ok(false), "no such group");
    assert_eq!(s.move_tracks(&[99], None, None), Ok(false), "no such track");

    let mut s = song(vec![sc_plugin(21, TapSource::Track(1), true)]);
    assert_eq!(s.move_tracks(&[2], Some(1), None), Ok(true), "in the same group");
    assert_eq!(s.move_tracks(&[3], Some(1), Some(2)), Ok(true), "not on the cycle");
}

#[test]
fn an_order_has_every_track_behind_what_it_needs() {
    let mut s = song(vec![sc_plugin(23, TapSource::Track(3), false)]);
    s.tracks[2].sends.push(send(1));
    let order = TrackDeps::build(&s, EdgeScope::Active).dependency_order().unwrap();
    assert_eq!(order.len(), 3);
    let place = |i: u32| order.iter().position(|&x| x == i).unwrap();
    assert!(place(2) < place(1) && place(1) < place(0) && place(2) < place(0));
}
