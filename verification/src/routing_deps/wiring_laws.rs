//! What holds of wiring that is changed and listed.

use super::consumers;
use super::consumers::ConsumerModel;
use super::edit;
use super::graph;
use crate::model::device::NativeKind;
use crate::model::lookup;
use crate::model::{
    AuxInputRoute, ChainModel, DeviceModel, LaneModel, ModRouting, SongModel, TapPoint, TapSource, TrackModel,
};
use crate::song_index::laws as index_laws;
use vstd::prelude::*;

verus! {

// ---------------------------------------------------------------------------
// Rewiring
// ---------------------------------------------------------------------------

/// Whether a device can read a side chain at a port: a plugin at any, and a compressor at
/// the first.
pub open spec fn can_read(d: DeviceModel, port: u8) -> bool {
    match d {
        DeviceModel::Plugin(_) => true,
        DeviceModel::Native(n) => port == 0 && (n.kind == NativeKind::Comp || n.kind == NativeKind::BusComp),
        DeviceModel::Parallel { id: _, chains: _ } => false,
    }
}

/// What a device reads at a port.
pub open spec fn read_at(d: DeviceModel, port: u8) -> Option<AuxInputRoute> {
    match d {
        DeviceModel::Plugin(p) => if port < p.aux_inputs.len() {
            p.aux_inputs[port as int]
        } else {
            None
        },
        DeviceModel::Native(n) => if can_read(d, port) {
            n.aux_input
        } else {
            None
        },
        DeviceModel::Parallel { id: _, chains: _ } => None,
    }
}

/// Whether a route reads a source where it should: a track reads itself before its
/// effects, and anything else is read where it was read before, or after the fader.
pub open spec fn reads_rightly(
    now: Option<AuxInputRoute>,
    was: Option<AuxInputRoute>,
    source: Option<TapSource>,
    owner: u32,
) -> bool {
    match source {
        None => now is None,
        Some(src) => {
            &&& now is Some
            &&& now->0.tap.source == src
            &&& src == TapSource::Track(owner) ==> now->0.tap.tap_point == TapPoint::PreFx
            &&& src != TapSource::Track(owner) && was is Some ==> now->0.tap.tap_point == was->0.tap.tap_point
            &&& src != TapSource::Track(owner) && was is None ==> now->0.tap.tap_point == TapPoint::PostFader
        },
    }
}

/// Rewiring a port that can read makes it read the source and leaves the other ports of
/// the device alone; where the source is refused or the port cannot read, and where there
/// is no such device, nothing changes.
pub proof fn law_rewiring_reads_the_source(song: SongModel, id: u64, port: u8, source: Option<TapSource>)
    ensures
        ({
            let now = song.rewired(id, port, source);
            let d = song.device(id);
            let owner = song.device_owner(id);
            if d is Some && owner is Some && can_read(d->0, port) && !song.refuses_source(owner->0, source) {
                &&& now.device(id) is Some
                &&& reads_rightly(read_at(now.device(id)->0, port), read_at(d->0, port), source, owner->0)
                &&& forall|other: u8|
                    other != port ==> #[trigger] read_at(now.device(id)->0, other) == read_at(d->0, other)
            } else {
                now == song
            }
        }),
{
    let d = song.device(id);
    let owner = song.device_owner(id);
    if d is Some && owner is Some {
        let d = d->0;
        assert(can_read(d, port) == edit::has_port(d, port));
        assert(read_at(d, port) == edit::route_of(d, port));
        if song.rewires(id, port, source) {
            let next = song.next_route(owner->0, edit::route_of(d, port), source);
            edit::law_wiring_overwrites(song, id, port, next, next);
            let e = edit::with_route(d, port, next);
            assert(song.rewired(id, port, source).device(id) == Some(e));
            if let DeviceModel::Plugin(p) = d {
                let more = edit::padded(p.aux_inputs, port + 1);
                assert forall|other: u8| other != port implies #[trigger] read_at(e, other) == read_at(d, other) by {
                    if other < more.len() {
                        assert(more.update(port as int, next)[other as int] == more[other as int]);
                    }
                }
            }
        }
    }
}

/// Whether a chain is in the devices of a track and of none before it.
pub open spec fn is_first_with_chain(tracks: Seq<TrackModel>, chain: u64, i: int) -> bool {
    &&& 0 <= i < tracks.len()
    &&& graph::chain_ids(tracks[i].devices).contains(chain)
    &&& forall|k: int| 0 <= k < i ==> !graph::chain_ids((#[trigger] tracks[k]).devices).contains(chain)
}

proof fn lemma_chain_track(tracks: Seq<TrackModel>, chain: u64, i: int, from: int)
    requires
        is_first_with_chain(tracks, chain, i),
        0 <= from <= i,
    ensures
        edit::chain_track_from(tracks, chain, from) == Some(tracks[i].id),
    decreases i - from,
{
    if from < i {
        lemma_chain_track(tracks, chain, i, from + 1);
    }
}

/// A source is refused if and only if it belongs to another track whose reading would
/// close a cycle.
pub proof fn law_a_source_is_refused_for_a_cycle(song: SongModel, owner: u32)
    ensures
        !song.refuses_source(owner, None),
        forall|t: u32|
            #[trigger] song.refuses_source(owner, Some(TapSource::Track(t))) <==> t != owner && song.closes_cycle(owner, t),
        forall|chain: u64, i: int|
            #[trigger] is_first_with_chain(song.tracks, chain, i) ==> (song.refuses_source(
                owner,
                Some(TapSource::Chain(chain)),
            ) <==> song.tracks[i].id != owner && song.closes_cycle(owner, song.tracks[i].id)),
{
    assert forall|chain: u64, i: int| #[trigger] is_first_with_chain(song.tracks, chain, i) implies (song.refuses_source(
        owner,
        Some(TapSource::Chain(chain)),
    ) <==> song.tracks[i].id != owner && song.closes_cycle(owner, song.tracks[i].id)) by {
        lemma_chain_track(song.tracks, chain, i, 0);
    }
}

/// A move is refused if and only if one of the tracks is not in the group and would close a
/// cycle there, and then nothing changes.
pub proof fn law_a_move_is_refused_for_a_cycle(
    song: SongModel,
    ids: Seq<u32>,
    parent: Option<u32>,
    anchor: Option<u32>,
)
    requires
        forall|i: int, j: int|
            0 <= i < j < song.tracks.len() ==> (#[trigger] song.tracks[i]).id != (#[trigger] song.tracks[j]).id,
        parent matches Some(p) ==> exists|i: int| 0 <= i < song.tracks.len() && (#[trigger] song.tracks[i]).id == p,
    ensures
        song.move_is_cyclic(ids, parent) <==> parent is Some && exists|i: int|
            0 <= i < song.tracks.len() && ids.contains((#[trigger] song.tracks[i]).id)
                && song.tracks[i].parent_group_id != parent && song.closes_cycle(parent->0, song.tracks[i].id),
        song.move_is_cyclic(ids, parent) ==> song.moved(ids, parent, anchor) == song,
{
    if let Some(p) = parent {
        lookup::lemma_track_place(song.tracks, p);
        if song.move_is_cyclic(ids, parent) {
            let k = choose|k: int| 0 <= k < ids.len() && song.refuses_move(#[trigger] ids[k], p);
            lookup::lemma_track_place(song.tracks, ids[k]);
            let i = lookup::track_place(song.tracks, ids[k])->0;
            assert(ids.contains(song.tracks[i].id));
        }
        if exists|i: int|
            0 <= i < song.tracks.len() && ids.contains((#[trigger] song.tracks[i]).id)
                && song.tracks[i].parent_group_id != parent && song.closes_cycle(p, song.tracks[i].id) {
            let i = choose|i: int|
                0 <= i < song.tracks.len() && ids.contains((#[trigger] song.tracks[i]).id)
                    && song.tracks[i].parent_group_id != parent && song.closes_cycle(p, song.tracks[i].id);
            let k = choose|k: int| 0 <= k < ids.len() && ids[k] == song.tracks[i].id;
            lookup::lemma_track_place(song.tracks, ids[k]);
            let place = lookup::track_place(song.tracks, ids[k])->0;
            assert(place == i) by {
                if place < i {
                    assert(song.tracks[place].id != song.tracks[i].id);
                }
            }
            assert(song.refuses_move(ids[k], p));
        }
    }
}

// ---------------------------------------------------------------------------
// Consumers
// ---------------------------------------------------------------------------

/// Whether a native device can run: it does, or a lane or routing that is enabled can
/// switch it on.
pub open spec fn can_run(id: u64, kind: NativeKind, bypassed: bool, lanes: Seq<LaneModel>, routings: Seq<ModRouting>) -> bool {
    let switch = crate::model::AutomationTarget::NativeParam {
        device_id: id,
        param: crate::model::NativeParamId::On(kind),
    };
    ||| !bypassed
    ||| exists|i: int| 0 <= i < lanes.len() && (#[trigger] lanes[i]).enabled && lanes[i].target == switch
    ||| exists|i: int| 0 <= i < routings.len() && (#[trigger] routings[i]).enabled && routings[i].target == switch
}

/// Whether a device reads a side chain.
pub open spec fn reads_any(d: DeviceModel) -> bool {
    match d {
        DeviceModel::Plugin(p) => exists|k: int| 0 <= k < p.aux_inputs.len() && (#[trigger] p.aux_inputs[k]) is Some,
        DeviceModel::Native(n) => can_read(d, 0) && n.aux_input is Some,
        DeviceModel::Parallel { id: _, chains: _ } => false,
    }
}

/// Whether a consumer is that of a device.
pub open spec fn is_consumer_of(
    c: ConsumerModel,
    d: DeviceModel,
    lanes: Seq<LaneModel>,
    routings: Seq<ModRouting>,
    top: int,
) -> bool {
    &&& reads_any(d)
    &&& c.device_id == d.id()
    &&& c.top_index == top
    &&& match d {
        DeviceModel::Plugin(p) => {
            &&& c.routes == p.aux_inputs
            &&& c.inactive == p.bypassed
            &&& !c.native
            &&& c.audio_io == (p.ports.has_audio_input && p.ports.has_audio_output)
        },
        DeviceModel::Native(n) => {
            &&& c.routes.len() == 1
            &&& c.routes[0] == n.aux_input
            &&& c.inactive == !can_run(n.id, n.kind, n.bypassed, lanes, routings)
            &&& c.native
            &&& c.audio_io
        },
        DeviceModel::Parallel { id: _, chains: _ } => false,
    }
}

/// Whether a consumer is listed for a device.
pub open spec fn is_listed(
    cs: Seq<ConsumerModel>,
    d: DeviceModel,
    lanes: Seq<LaneModel>,
    routings: Seq<ModRouting>,
    top: int,
) -> bool {
    exists|k: int| 0 <= k < cs.len() && is_consumer_of(#[trigger] cs[k], d, lanes, routings, top)
}

proof fn lemma_listed_add(
    a: Seq<ConsumerModel>,
    b: Seq<ConsumerModel>,
    d: DeviceModel,
    lanes: Seq<LaneModel>,
    routings: Seq<ModRouting>,
    top: int,
)
    requires
        is_listed(a, d, lanes, routings, top) || is_listed(b, d, lanes, routings, top),
    ensures
        is_listed(a + b, d, lanes, routings, top),
{
    if is_listed(a, d, lanes, routings, top) {
        let k = choose|k: int| 0 <= k < a.len() && is_consumer_of(#[trigger] a[k], d, lanes, routings, top);
        assert((a + b)[k] == a[k]);
    } else {
        let k = choose|k: int| 0 <= k < b.len() && is_consumer_of(#[trigger] b[k], d, lanes, routings, top);
        assert((a + b)[a.len() + k] == b[k]);
    }
}

proof fn lemma_device_listed(
    d: DeviceModel,
    whole: DeviceModel,
    lanes: Seq<LaneModel>,
    routings: Seq<ModRouting>,
    top: u32,
)
    requires
        index_laws::is_inside(d, whole),
        reads_any(d),
    ensures
        is_listed(consumers::device_consumers(whole, lanes, routings, top), d, lanes, routings, top as int),
    decreases whole,
{
    let cs = consumers::device_consumers(whole, lanes, routings, top);
    if d == whole {
        match d {
            DeviceModel::Plugin(p) => {
                assert(consumers::any_wired(p.aux_inputs));
                assert(is_consumer_of(cs[0], d, lanes, routings, top as int));
            },
            DeviceModel::Native(n) => {
                lemma_can_run(n.id, n.kind, n.bypassed, lanes, routings, n);
                assert(is_consumer_of(cs[0], d, lanes, routings, top as int));
            },
            _ => {},
        }
    } else {
        if let DeviceModel::Parallel { id: _, chains } = whole {
            let (c, i) = choose|c: int, i: int|
                #![trigger chains[c].devices[i]]
                0 <= c < chains.len() && 0 <= i < chains[c].devices.len() && index_laws::is_inside_of(d, chains, c, i);
            assert(index_laws::is_inside_of(d, chains, c, i));
            assert(decreases_to!(whole => chains));
            lemma_chains_listed(d, chains, c, i, lanes, routings, top);
        }
    }
}

proof fn lemma_can_run(
    id: u64,
    kind: NativeKind,
    bypassed: bool,
    lanes: Seq<LaneModel>,
    routings: Seq<ModRouting>,
    n: crate::model::NativeDevice,
)
    requires
        n.id == id,
        n.kind == kind,
        n.bypassed == bypassed,
    ensures
        can_run(id, kind, bypassed, lanes, routings) == consumers::can_activate(n, lanes, routings),
{
}

proof fn lemma_chains_listed(
    d: DeviceModel,
    chains: Seq<ChainModel>,
    c: int,
    i: int,
    lanes: Seq<LaneModel>,
    routings: Seq<ModRouting>,
    top: u32,
)
    requires
        0 <= c < chains.len(),
        0 <= i < chains[c].devices.len(),
        index_laws::is_inside(d, chains[c].devices[i]),
        reads_any(d),
    ensures
        is_listed(consumers::chain_consumers(chains, lanes, routings, top), d, lanes, routings, top as int),
    decreases chains,
{
    let a = consumers::list_consumers(chains[0].devices, lanes, routings, top);
    let b = consumers::chain_consumers(chains.drop_first(), lanes, routings, top);
    if c == 0 {
        assert(decreases_to!(chains => chains[0]));
        lemma_list_listed(d, chains[0].devices, i, lanes, routings, top);
    } else {
        assert(decreases_to!(chains => chains.drop_first()));
        lemma_chains_listed(d, chains.drop_first(), c - 1, i, lanes, routings, top);
    }
    lemma_listed_add(a, b, d, lanes, routings, top as int);
}

proof fn lemma_list_listed(
    d: DeviceModel,
    devices: Seq<DeviceModel>,
    i: int,
    lanes: Seq<LaneModel>,
    routings: Seq<ModRouting>,
    top: u32,
)
    requires
        0 <= i < devices.len(),
        index_laws::is_inside(d, devices[i]),
        reads_any(d),
    ensures
        is_listed(consumers::list_consumers(devices, lanes, routings, top), d, lanes, routings, top as int),
    decreases devices,
{
    let a = consumers::device_consumers(devices[0], lanes, routings, top);
    let b = consumers::list_consumers(devices.drop_first(), lanes, routings, top);
    if i == 0 {
        assert(decreases_to!(devices => devices[0]));
        lemma_device_listed(d, devices[0], lanes, routings, top);
    } else {
        assert(decreases_to!(devices => devices.drop_first()));
        lemma_list_listed(d, devices.drop_first(), i - 1, lanes, routings, top);
    }
    lemma_listed_add(a, b, d, lanes, routings, top as int);
}

proof fn lemma_from_listed(
    d: DeviceModel,
    devices: Seq<DeviceModel>,
    i: int,
    lanes: Seq<LaneModel>,
    routings: Seq<ModRouting>,
    from: nat,
)
    requires
        from <= i < devices.len() <= u32::MAX,
        index_laws::is_inside(d, devices[i]),
        reads_any(d),
    ensures
        is_listed(consumers::consumers_from(devices, lanes, routings, from), d, lanes, routings, i),
    decreases devices.len() - from,
{
    let a = consumers::device_consumers(devices[from as int], lanes, routings, from as u32);
    let b = consumers::consumers_from(devices, lanes, routings, from + 1);
    if i == from {
        lemma_device_listed(d, devices[i], lanes, routings, from as u32);
    } else {
        lemma_from_listed(d, devices, i, lanes, routings, from + 1);
    }
    lemma_listed_add(a, b, d, lanes, routings, i);
}

/// Whether a consumer is that of a device inside the one at a place, or of that itself.
pub open spec fn is_of_something_in(
    c: ConsumerModel,
    whole: DeviceModel,
    lanes: Seq<LaneModel>,
    routings: Seq<ModRouting>,
    top: int,
) -> bool {
    exists|d: DeviceModel| #[trigger]
        index_laws::is_inside(d, whole) && is_consumer_of(c, d, lanes, routings, top)
}

proof fn lemma_device_s(whole: DeviceModel, lanes: Seq<LaneModel>, routings: Seq<ModRouting>, top: u32, k: int)
    requires
        0 <= k < consumers::device_consumers(whole, lanes, routings, top).len(),
    ensures
        exists|d: DeviceModel| #[trigger]
            index_laws::is_inside(d, whole) && is_consumer_of(
                consumers::device_consumers(whole, lanes, routings, top)[k],
                d,
                lanes,
                routings,
                top as int,
            ),
    decreases whole,
{
    let cs = consumers::device_consumers(whole, lanes, routings, top);
    match whole {
        DeviceModel::Plugin(p) => {
            assert(consumers::any_wired(p.aux_inputs));
            assert(index_laws::is_inside(whole, whole));
            assert(is_consumer_of(cs[k], whole, lanes, routings, top as int));
        },
        DeviceModel::Native(n) => {
            lemma_can_run(n.id, n.kind, n.bypassed, lanes, routings, n);
            assert(index_laws::is_inside(whole, whole));
            assert(is_consumer_of(cs[k], whole, lanes, routings, top as int));
        },
        DeviceModel::Parallel { id: _, chains } => {
            assert(decreases_to!(whole => chains));
            let (c, i, d) = lemma_chains_s(chains, lanes, routings, top, k);
            assert(index_laws::is_inside_of(d, chains, c, i));
            assert(index_laws::is_inside(d, chains[c].devices[i]));
            assert(index_laws::is_inside(d, whole));
        },
    }
}

proof fn lemma_chains_s(chains: Seq<ChainModel>, lanes: Seq<LaneModel>, routings: Seq<ModRouting>, top: u32, k: int) -> (found:
    (int, int, DeviceModel))
    requires
        0 <= k < consumers::chain_consumers(chains, lanes, routings, top).len(),
    ensures
        0 <= found.0 < chains.len(),
        0 <= found.1 < chains[found.0].devices.len(),
        index_laws::is_inside(found.2, chains[found.0].devices[found.1]),
        is_consumer_of(
            consumers::chain_consumers(chains, lanes, routings, top)[k],
            found.2,
            lanes,
            routings,
            top as int,
        ),
    decreases chains,
{
    let a = consumers::list_consumers(chains[0].devices, lanes, routings, top);
    let rest = chains.drop_first();
    assert(decreases_to!(chains => chains[0]));
    assert(decreases_to!(chains => rest));
    if k < a.len() {
        let (i, d) = lemma_list_s(chains[0].devices, lanes, routings, top, k);
        (0, i, d)
    } else {
        let (c, i, d) = lemma_chains_s(rest, lanes, routings, top, k - a.len());
        assert(rest[c] == chains[c + 1]);
        (c + 1, i, d)
    }
}

proof fn lemma_list_s(devices: Seq<DeviceModel>, lanes: Seq<LaneModel>, routings: Seq<ModRouting>, top: u32, k: int) -> (found:
    (int, DeviceModel))
    requires
        0 <= k < consumers::list_consumers(devices, lanes, routings, top).len(),
    ensures
        0 <= found.0 < devices.len(),
        index_laws::is_inside(found.1, devices[found.0]),
        is_consumer_of(
            consumers::list_consumers(devices, lanes, routings, top)[k],
            found.1,
            lanes,
            routings,
            top as int,
        ),
    decreases devices,
{
    let a = consumers::device_consumers(devices[0], lanes, routings, top);
    let rest = devices.drop_first();
    assert(decreases_to!(devices => devices[0]));
    assert(decreases_to!(devices => rest));
    if k < a.len() {
        lemma_device_s(devices[0], lanes, routings, top, k);
        let d = choose|d: DeviceModel| #[trigger]
            index_laws::is_inside(d, devices[0]) && is_consumer_of(a[k], d, lanes, routings, top as int);
        (0, d)
    } else {
        let (i, d) = lemma_list_s(rest, lanes, routings, top, k - a.len());
        assert(rest[i] == devices[i + 1]);
        (i + 1, d)
    }
}

proof fn lemma_from_s(devices: Seq<DeviceModel>, lanes: Seq<LaneModel>, routings: Seq<ModRouting>, from: nat, k: int) -> (i: int)
    requires
        devices.len() <= u32::MAX,
        0 <= k < consumers::consumers_from(devices, lanes, routings, from).len(),
    ensures
        0 <= i < devices.len(),
        is_of_something_in(consumers::consumers_from(devices, lanes, routings, from)[k], devices[i], lanes, routings, i),
    decreases devices.len() - from,
{
    let a = consumers::device_consumers(devices[from as int], lanes, routings, from as u32);
    if k < a.len() {
        lemma_device_s(devices[from as int], lanes, routings, from as u32, k);
        from as int
    } else {
        lemma_from_s(devices, lanes, routings, from + 1, k - a.len())
    }
}

/// Every device that reads a side chain is listed, at whatever depth it is, with what it
/// reads, whether it can run, and the place of what it is in; and nothing else is.
pub proof fn law_what_reads_is_listed(devices: Seq<DeviceModel>, lanes: Seq<LaneModel>, routings: Seq<ModRouting>)
    requires
        devices.len() <= u32::MAX,
    ensures
        forall|i: int, d: DeviceModel|
            0 <= i < devices.len() && reads_any(d) && #[trigger] index_laws::is_inside(d, devices[i]) ==> is_listed(
                consumers::consumers(devices, lanes, routings),
                d,
                lanes,
                routings,
                i,
            ),
        forall|k: int|
            0 <= k < consumers::consumers(devices, lanes, routings).len() ==> exists|i: int|
                0 <= i < devices.len() && is_of_something_in(
                    #[trigger] consumers::consumers(devices, lanes, routings)[k],
                    #[trigger] devices[i],
                    lanes,
                    routings,
                    i,
                ),
{
    let all = consumers::consumers(devices, lanes, routings);
    assert forall|i: int, d: DeviceModel|
        0 <= i < devices.len() && reads_any(d) && #[trigger] index_laws::is_inside(d, devices[i]) implies is_listed(
        all,
        d,
        lanes,
        routings,
        i,
    ) by {
        lemma_from_listed(d, devices, i, lanes, routings, 0);
    }
    assert forall|k: int| 0 <= k < consumers::consumers(devices, lanes, routings).len() implies exists|i: int|
        0 <= i < devices.len() && is_of_something_in(
            #[trigger] consumers::consumers(devices, lanes, routings)[k],
            #[trigger] devices[i],
            lanes,
            routings,
            i,
        ) by {
        let i = lemma_from_s(devices, lanes, routings, 0, k);
        assert(is_of_something_in(all[k], devices[i], lanes, routings, i));
    }
}

} // verus!
