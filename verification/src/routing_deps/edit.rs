//! The edits that change wiring. Each asks the graph first and leaves the song
//! alone where the change would close a cycle.

use super::consumers;
use super::consumers::{aux_consumers, AuxConsumer, ConsumerModel};
use super::graph;
use super::graph::{DependencyCycle, EdgeScope, TrackDeps};
use crate::model;
use crate::model::device;
use crate::model::lookup;
use crate::model::{
    AudioTap, AuxInputRoute, ChainModel, Device, DeviceModel, NativeDevice, ParallelChain, PluginModel, Song,
    SongModel, TapPoint, TapSource, Track, TrackModel, MASTER_TRACK_ID,
};
use vstd::prelude::*;

verus! {

// ---------------------------------------------------------------------------
// The wiring of one port
// ---------------------------------------------------------------------------

/// The wiring of port `port` of a device.
pub open spec fn route_of(d: DeviceModel, port: u8) -> Option<AuxInputRoute> {
    match d {
        DeviceModel::Plugin(p) => if port < p.aux_inputs.len() {
            p.aux_inputs[port as int]
        } else {
            None
        },
        DeviceModel::Native(n) => if port == 0 && n.has_sidechain() {
            n.aux_input
        } else {
            None
        },
        DeviceModel::Parallel { id: _, chains: _ } => None,
    }
}

/// Whether port `port` of a device can be wired: any port of a plugin, the side
/// chain of a native device.
pub open spec fn has_port(d: DeviceModel, port: u8) -> bool {
    match d {
        DeviceModel::Plugin(_) => true,
        DeviceModel::Native(n) => port == 0 && n.has_sidechain(),
        DeviceModel::Parallel { id: _, chains: _ } => false,
    }
}

/// `routes` extended with unwired ports up to `n` ports.
pub open spec fn padded(routes: Seq<Option<AuxInputRoute>>, n: int) -> Seq<Option<AuxInputRoute>> {
    if routes.len() >= n {
        routes
    } else {
        routes + Seq::new((n - routes.len()) as nat, |i: int| None::<AuxInputRoute>)
    }
}

/// A device with port `port` wired to `next`.
pub open spec fn with_route(d: DeviceModel, port: u8, next: Option<AuxInputRoute>) -> DeviceModel {
    match d {
        DeviceModel::Plugin(p) => DeviceModel::Plugin(
            PluginModel { aux_inputs: padded(p.aux_inputs, port + 1).update(port as int, next), ..p },
        ),
        DeviceModel::Native(n) => if port == 0 && n.has_sidechain() {
            DeviceModel::Native(NativeDevice { aux_input: next, ..n })
        } else {
            d
        },
        DeviceModel::Parallel { id: _, chains: _ } => d,
    }
}

/// `d` with port `port` of the first device with id `id` inside it wired to
/// `next`.
pub open spec fn device_write(d: DeviceModel, id: u64, port: u8, next: Option<AuxInputRoute>) -> DeviceModel
    decreases d,
{
    if d.id() == id {
        with_route(d, port, next)
    } else {
        match d {
            DeviceModel::Parallel { id: own, chains } => DeviceModel::Parallel {
                id: own,
                chains: chains_write(chains, id, port, next),
            },
            _ => d,
        }
    }
}

/// The chains of a rack with one port rewired, see [`device_write`].
pub open spec fn chains_write(chains: Seq<ChainModel>, id: u64, port: u8, next: Option<AuxInputRoute>) -> Seq<
    ChainModel,
>
    decreases chains,
{
    if chains.len() == 0 {
        Seq::empty()
    } else if lookup::list_find(chains[0].devices, id) is Some {
        seq![ChainModel { devices: list_write(chains[0].devices, id, port, next), ..chains[0] }] + chains.drop_first()
    } else {
        seq![chains[0]] + chains_write(chains.drop_first(), id, port, next)
    }
}

/// A device chain with one port rewired, see [`device_write`].
pub open spec fn list_write(devices: Seq<DeviceModel>, id: u64, port: u8, next: Option<AuxInputRoute>) -> Seq<
    DeviceModel,
>
    decreases devices,
{
    if devices.len() == 0 {
        Seq::empty()
    } else if lookup::device_find(devices[0], id) is Some {
        seq![device_write(devices[0], id, port, next)] + devices.drop_first()
    } else {
        seq![devices[0]] + list_write(devices.drop_first(), id, port, next)
    }
}

impl SongModel {
    /// The song with port `port` of the first device with id `id` wired to
    /// `next`.
    pub open spec fn with_route(self, id: u64, port: u8, next: Option<AuxInputRoute>) -> SongModel {
        match lookup::tracks_find(self.tracks, id, 0) {
            Some(found) => SongModel {
                tracks: self.tracks.update(
                    found.0,
                    TrackModel {
                        devices: list_write(self.tracks[found.0].devices, id, port, next),
                        ..self.tracks[found.0]
                    },
                ),
                ..self
            },
            None => SongModel { master_fx_chain: list_write(self.master_fx_chain, id, port, next), ..self },
        }
    }
}

/// The wiring of port `port`.
fn aux_input(d: &Device, port: u8) -> (r: Option<AuxInputRoute>)
    ensures
        r == route_of(d@, port),
{
    match d {
        Device::Plugin(p) => {
            if (port as usize) < p.aux_inputs.len() {
                p.aux_inputs[port as usize]
            } else {
                None
            }
        },
        Device::Native(n) => {
            if port == 0 && n.has_sidechain() {
                n.aux_input
            } else {
                None
            }
        },
        Device::Parallel(_) => None,
    }
}

/// Whether port `port` can be wired.
fn has_aux_input(d: &Device, port: u8) -> (r: bool)
    ensures
        r == has_port(d@, port),
{
    match d {
        Device::Plugin(_) => true,
        Device::Native(n) => port == 0 && n.has_sidechain(),
        Device::Parallel(_) => false,
    }
}

/// Wires port `port` of a device.
fn set_route(d: &mut Device, port: u8, next: Option<AuxInputRoute>)
    ensures
        final(d)@ == with_route(old(d)@, port, next),
{
    match d {
        Device::Plugin(p) => {
            let ghost before = p.aux_inputs@;
            while p.aux_inputs.len() <= port as usize
                invariant
                    before.len() <= p.aux_inputs@.len(),
                    p.aux_inputs@.len() <= before.len() || p.aux_inputs@.len() <= port + 1,
                    forall|i: int| 0 <= i < before.len() ==> #[trigger] p.aux_inputs@[i] == before[i],
                    forall|i: int| before.len() <= i < p.aux_inputs@.len() ==> (#[trigger] p.aux_inputs@[i]) is None,
                    p.id == old(d)@->Plugin_0.id,
                    p.plugin_id@ == old(d)@->Plugin_0.plugin_id,
                    p.format == old(d)@->Plugin_0.format,
                    p.bypassed == old(d)@->Plugin_0.bypassed,
                    p.ports == old(d)@->Plugin_0.ports,
                    p.aux_outputs@ == old(d)@->Plugin_0.aux_outputs,
                decreases port + 1 - p.aux_inputs@.len(),
            {
                p.aux_inputs.push(None);
            }
            assert(p.aux_inputs@ =~= padded(before, port + 1));
            p.aux_inputs.set(port as usize, next);
        },
        Device::Native(n) => {
            if port == 0 && n.has_sidechain() {
                n.aux_input = next;
            }
        },
        Device::Parallel(_) => {},
    }
}

/// Wires port `port` of the first device with id `id` inside `d`. Returns
/// whether there is one.
fn write_device(d: &mut Device, id: u64, port: u8, next: Option<AuxInputRoute>) -> (r: bool)
    ensures
        r == (lookup::device_find(old(d)@, id) is Some),
        final(d)@ == if r {
            device_write(old(d)@, id, port, next)
        } else {
            old(d)@
        },
    decreases *old(d),
{
    if d.id() == id {
        set_route(d, port, next);
        return true;
    }
    match d {
        Device::Parallel(p) => {
            let ghost before = p.chains@;
            let r = write_chains(&mut p.chains, id, port, next);
            proof {
                let old_model = DeviceModel::Parallel { id: p.id, chains: device::chain_models(before) };
                assert(old(d)@ == old_model);
                assert(lookup::device_find(old_model, id) == lookup::chains_find(device::chain_models(before), id));
                assert(device_write(old_model, id, port, next) == (DeviceModel::Parallel {
                    id: p.id,
                    chains: chains_write(device::chain_models(before), id, port, next),
                }));
            }
            r
        },
        Device::Plugin(p) => {
            assert(old(d)@ == DeviceModel::Plugin(p@));
            false
        },
        Device::Native(n) => {
            assert(old(d)@ == DeviceModel::Native(*n));
            false
        },
    }
}

/// Wires port `port` of the first device with id `id` inside the chains of a
/// rack. Returns whether there is one.
fn write_chains(chains: &mut Vec<ParallelChain>, id: u64, port: u8, next: Option<AuxInputRoute>) -> (r: bool)
    ensures
        r == (lookup::chains_find(device::chain_models(old(chains)@), id) is Some),
        device::chain_models(final(chains)@) == if r {
            chains_write(device::chain_models(old(chains)@), id, port, next)
        } else {
            device::chain_models(old(chains)@)
        },
    decreases old(chains)@,
{
    let ghost start = chains@;
    let ghost cm = device::chain_models(chains@);
    let mut j: usize = 0;
    assert(cm.skip(0) =~= cm);
    assert(cm.take(0) + chains_write(cm.skip(0), id, port, next) =~= chains_write(cm, id, port, next));
    while j < chains.len()
        invariant
            start == old(chains)@,
            cm == device::chain_models(start),
            chains@.len() == start.len(),
            j <= chains@.len(),
            device::chain_models(chains@) == cm,
            forall|k: int| j <= k < start.len() ==> #[trigger] chains@[k] == start[k],
            lookup::chains_find(cm, id) == lookup::chains_find(cm.skip(j as int), id),
            chains_write(cm, id, port, next) == cm.take(j as int) + chains_write(cm.skip(j as int), id, port, next),
        decreases start.len() - j,
    {
        let ghost rest = cm.skip(j as int);
        proof {
            assert(chains@[j as int] == start[j as int]);
            assert(decreases_to!(start => start[j as int]));
            assert(decreases_to!(start[j as int] => start[j as int].devices));
            assert(decreases_to!(start[j as int].devices => start[j as int].devices@));
            assert(rest[0] == device::chain_model(start[j as int]));
            assert(rest.drop_first() =~= cm.skip(j + 1));
        }
        let found = write_devices(&mut chains[j].devices, id, port, next);
        proof {
            assert(chains@.len() == start.len());
            assert forall|k: int| j < k < start.len() implies #[trigger] chains@[k] == start[k] by {}
            assert forall|k: int| 0 <= k < j implies #[trigger] device::chain_models(chains@)[k] == cm[k] by {}
            if found {
                assert(device::chain_models(chains@) =~= chains_write(cm, id, port, next));
            } else {
                assert(device::chain_model(chains@[j as int]) == cm[j as int]);
                assert(device::chain_models(chains@) =~= cm);
                assert(cm.take(j as int) + (seq![rest[0]] + chains_write(rest.drop_first(), id, port, next))
                    =~= cm.take(j + 1) + chains_write(cm.skip(j + 1), id, port, next));
            }
        }
        if found {
            return true;
        }
        j += 1;
    }
    false
}

/// Wires port `port` of the first device with id `id` inside a chain. Returns
/// whether there is one.
fn write_devices(devices: &mut Vec<Device>, id: u64, port: u8, next: Option<AuxInputRoute>) -> (r: bool)
    ensures
        r == (lookup::list_find(device::device_models(old(devices)@), id) is Some),
        device::device_models(final(devices)@) == if r {
            list_write(device::device_models(old(devices)@), id, port, next)
        } else {
            device::device_models(old(devices)@)
        },
    decreases old(devices)@,
{
    let ghost start = devices@;
    let ghost dm = device::device_models(devices@);
    let mut i: usize = 0;
    assert(dm.skip(0) =~= dm);
    assert(dm.take(0) + list_write(dm.skip(0), id, port, next) =~= list_write(dm, id, port, next));
    while i < devices.len()
        invariant
            start == old(devices)@,
            dm == device::device_models(start),
            devices@.len() == start.len(),
            i <= devices@.len(),
            device::device_models(devices@) == dm,
            forall|k: int| i <= k < start.len() ==> #[trigger] devices@[k] == start[k],
            lookup::list_find(dm, id) == lookup::list_find(dm.skip(i as int), id),
            list_write(dm, id, port, next) == dm.take(i as int) + list_write(dm.skip(i as int), id, port, next),
        decreases start.len() - i,
    {
        let ghost rest = dm.skip(i as int);
        proof {
            assert(devices@[i as int] == start[i as int]);
            assert(decreases_to!(start => start[i as int]));
            assert(rest[0] == device::device_model(start[i as int]));
            assert(rest.drop_first() =~= dm.skip(i + 1));
        }
        let found = write_device(&mut devices[i], id, port, next);
        proof {
            assert(devices@.len() == start.len());
            assert forall|k: int| i < k < start.len() implies #[trigger] devices@[k] == start[k] by {}
            assert forall|k: int| 0 <= k < i implies #[trigger] device::device_models(devices@)[k] == dm[k] by {}
            if found {
                assert(device::device_models(devices@) =~= list_write(dm, id, port, next));
            } else {
                assert(device::device_model(devices@[i as int]) == dm[i as int]);
                assert(device::device_models(devices@) =~= dm);
                assert(dm.take(i as int) + (seq![rest[0]] + list_write(rest.drop_first(), id, port, next))
                    =~= dm.take(i + 1) + list_write(dm.skip(i + 1), id, port, next));
            }
        }
        if found {
            return true;
        }
        i += 1;
    }
    false
}

// ---------------------------------------------------------------------------
// Wiring a side chain
// ---------------------------------------------------------------------------

/// The id of the first track from place `from` on that holds the chain `chain`.
pub open spec fn chain_track_from(tracks: Seq<TrackModel>, chain: u64, from: int) -> Option<u32>
    decreases tracks.len() - from,
{
    if from < 0 || from >= tracks.len() {
        None
    } else if graph::chain_ids(tracks[from].devices).contains(chain) {
        Some(tracks[from].id)
    } else {
        chain_track_from(tracks, chain, from + 1)
    }
}

impl SongModel {
    /// The id of the first track that holds the chain `chain`, or that of the
    /// master bus.
    pub open spec fn chain_track(self, chain: u64) -> Option<u32> {
        match chain_track_from(self.tracks, chain, 0) {
            Some(id) => Some(id),
            None => if graph::chain_ids(self.master_fx_chain).contains(chain) {
                Some(MASTER_TRACK_ID)
            } else {
                None
            },
        }
    }

    /// The id of the track that a tap on `source` reads.
    pub open spec fn producer(self, source: TapSource) -> Option<u32> {
        match source {
            TapSource::Track(t) => Some(t),
            TapSource::Chain(chain) => self.chain_track(chain),
        }
    }

    /// Whether the track `consumer` reading the track `producer` would close a
    /// cycle of wired devices.
    pub open spec fn closes_cycle(self, consumer: u32, producer: u32) -> bool {
        graph::closes_cycle(
            graph::track_ids(self.tracks),
            graph::song_graph(self.tracks, EdgeScope::Wired),
            consumer,
            producer,
        )
    }

    /// Whether a device of the track `owner` must not read `source`: another
    /// track that depends on `owner`.
    pub open spec fn refuses_source(self, owner: u32, source: Option<TapSource>) -> bool {
        match source {
            None => false,
            Some(src) => match self.producer(src) {
                None => false,
                Some(producer) => producer != owner && self.closes_cycle(owner, producer),
            },
        }
    }

    /// The wiring that a device of the track `owner` gets for `source`: it reads
    /// where it read before, and its own track only at the input of the chain.
    pub open spec fn next_route(self, owner: u32, current: Option<AuxInputRoute>, source: Option<TapSource>) -> Option<
        AuxInputRoute,
    > {
        match source {
            None => None,
            Some(src) => Some(
                AuxInputRoute {
                    tap: AudioTap {
                        source: src,
                        tap_point: if src == TapSource::Track(owner) {
                            TapPoint::PreFx
                        } else {
                            match current {
                                Some(route) => route.tap.tap_point,
                                None => TapPoint::PostFader,
                            }
                        },
                    },
                },
            ),
        }
    }

    /// Whether wiring port `port` of the device `id` to `source` changes it: the
    /// device exists, the source is not refused, the port can be wired, and it is
    /// not wired so already.
    pub open spec fn rewires(self, id: u64, port: u8, source: Option<TapSource>) -> bool {
        match (self.device_owner(id), self.device(id)) {
            (Some(owner), Some(d)) => {
                &&& !self.refuses_source(owner, source)
                &&& has_port(d, port)
                &&& self.next_route(owner, route_of(d, port), source) != route_of(d, port)
            },
            _ => false,
        }
    }

    /// The song after wiring port `port` of the device `id` to `source`.
    pub open spec fn rewired(self, id: u64, port: u8, source: Option<TapSource>) -> SongModel {
        if self.rewires(id, port, source) {
            self.with_route(
                id,
                port,
                self.next_route(self.device_owner(id)->0, route_of(self.device(id)->0, port), source),
            )
        } else {
            self
        }
    }
}

/// Whether `ids` holds `id`.
fn holds_chain(ids: &Vec<u64>, id: u64) -> (r: bool)
    ensures
        r == ids@.contains(id),
{
    let mut i: usize = 0;
    while i < ids.len()
        invariant
            i <= ids@.len(),
            forall|k: int| 0 <= k < i ==> ids@[k] != id,
        decreases ids@.len() - i,
    {
        if ids[i] == id {
            return true;
        }
        i += 1;
    }
    false
}

/// Whether a device chain holds the chain `chain`.
fn has_chain(devices: &Vec<Device>, chain: u64) -> (r: bool)
    ensures
        r == graph::chain_ids(device::device_models(devices@)).contains(chain),
{
    let mut ids: Vec<u64> = Vec::new();
    graph::push_chain_ids(devices, &mut ids);
    assert(ids@ =~= graph::chain_ids(device::device_models(devices@)));
    holds_chain(&ids, chain)
}

impl Song {
    /// The id of the track that holds the chain `chain`, or that of the master
    /// bus.
    pub fn chain_owner_track(&self, chain: u64) -> (r: Option<u32>)
        ensures
            r == self@.chain_track(chain),
    {
        let ghost tm = self@.tracks;
        let mut i: usize = 0;
        while i < self.tracks.len()
            invariant
                tm == self@.tracks,
                i <= tm.len(),
                chain_track_from(tm, chain, 0) == chain_track_from(tm, chain, i as int),
            decreases tm.len() - i,
        {
            assert(tm[i as int] == self.tracks@[i as int]@);
            if has_chain(&self.tracks[i].devices, chain) {
                return Some(self.tracks[i].id);
            }
            i += 1;
        }
        if has_chain(&self.master_fx_chain, chain) {
            Some(MASTER_TRACK_ID)
        } else {
            None
        }
    }

    /// The id of the track that a tap on `source` reads.
    fn tap_producer(&self, source: TapSource) -> (r: Option<u32>)
        ensures
            r == self@.producer(source),
    {
        match source {
            TapSource::Track(t) => Some(t),
            TapSource::Chain(chain) => self.chain_owner_track(chain),
        }
    }

    /// Whether the track `consumer` reading the track `producer` would close a
    /// cycle of wired devices.
    fn would_cycle(&self, consumer: u32, producer: u32) -> (r: bool)
        ensures
            r == self@.closes_cycle(consumer, producer),
    {
        TrackDeps::build(self, EdgeScope::Wired).would_cycle(consumer, producer)
    }

    /// Whether a send from `src` to `dest` may be added: it closes no cycle.
    pub fn can_add_send(&self, src: u32, dest: u32) -> (r: bool)
        ensures
            r == !self@.closes_cycle(dest, src),
    {
        !self.would_cycle(dest, src)
    }

    /// Wires port `port` of the first device with id `id`, which exists.
    fn write_route(&mut self, id: u64, port: u8, next: Option<AuxInputRoute>)
        requires
            old(self)@.device(id) is Some,
        ensures
            final(self)@ == old(self)@.with_route(id, port, next),
    {
        let ghost tm = self@.tracks;
        let ghost start = self.tracks@;
        let mut i: usize = 0;
        while i < self.tracks.len()
            invariant
                self@ == old(self)@,
                self.tracks@.len() == start.len(),
                tm == old(self)@.tracks,
                tm.len() == start.len(),
                model::models(start) == tm,
                i <= tm.len(),
                forall|k: int| i <= k < start.len() ==> #[trigger] self.tracks@[k] == start[k],
                lookup::tracks_find(tm, id, 0) == lookup::tracks_find(tm, id, i as int),
                old(self)@.device(id) is Some,
            decreases tm.len() - i,
        {
            let ghost before = self.tracks@;
            assert(model::models(before) == tm);
            assert(tm[i as int] == before[i as int]@);
            let found = write_devices(&mut self.tracks[i].devices, id, port, next);
            proof {
                assert forall|k: int| 0 <= k < tm.len() && k != i implies model::models(self.tracks@)[k] == tm[k] by {
                    assert(self.tracks@[k] == before[k]);
                    assert(model::models(before)[k] == before[k]@);
                }
                if found {
                    assert((lookup::tracks_find(tm, id, 0)->0).0 == i as int);
                    assert(self@.tracks =~= tm.update(
                        i as int,
                        TrackModel { devices: list_write(tm[i as int].devices, id, port, next), ..tm[i as int] },
                    ));
                } else {
                    assert(self.tracks@[i as int]@ == tm[i as int]);
                    assert(self@.tracks =~= tm);
                }
            }
            if found {
                return;
            }
            i += 1;
        }
        let found = write_devices(&mut self.master_fx_chain, id, port, next);
    }

    /// Wires port `port` of the device `device_id` to `source`, for plugins and
    /// native devices alike. Returns whether the song changed.
    ///
    /// A device may read its own track only at the input of the chain; elsewhere
    /// the tap point is kept. Wiring that would close a cycle is refused.
    pub fn set_aux_input(&mut self, device_id: u64, port: u8, source: Option<TapSource>) -> (r: bool)
        ensures
            r == old(self)@.rewires(device_id, port, source),
            final(self)@ == old(self)@.rewired(device_id, port, source),
    {
        let owner: u32 = match self.device_owner_track(device_id) {
            Some(owner) => owner,
            None => {
                return false;
            },
        };
        if let Some(src) = source {
            if let Some(producer) = self.tap_producer(src) {
                if producer != owner && self.would_cycle(owner, producer) {
                    return false;
                }
            }
        }
        let (current, wirable) = match self.device_by_id(device_id) {
            Some(d) => (aux_input(d, port), has_aux_input(d, port)),
            None => {
                return false;
            },
        };
        let next = match source {
            None => None,
            Some(src) => {
                let tap_point = if src == TapSource::Track(owner) {
                    TapPoint::PreFx
                } else {
                    match current {
                        Some(route) => route.tap.tap_point,
                        None => TapPoint::PostFader,
                    }
                };
                Some(AuxInputRoute { tap: AudioTap { source: src, tap_point } })
            },
        };
        if same_route(next, current) || !wirable {
            return false;
        }
        self.write_route(device_id, port, next);
        true
    }
}

/// Whether two wirings are the same.
fn same_route(a: Option<AuxInputRoute>, b: Option<AuxInputRoute>) -> (r: bool)
    ensures
        r == (a == b),
{
    match (a, b) {
        (None, None) => true,
        (Some(x), Some(y)) => x == y,
        _ => false,
    }
}

// ---------------------------------------------------------------------------
// Writing twice
// ---------------------------------------------------------------------------

proof fn lemma_with_route_twice(d: DeviceModel, port: u8, a: Option<AuxInputRoute>, b: Option<AuxInputRoute>)
    ensures
        with_route(with_route(d, port, a), port, b) == with_route(d, port, b),
        with_route(d, port, a).id() == d.id(),
        has_port(d, port) ==> route_of(with_route(d, port, a), port) == a,
        route_of(d, port) is Some ==> with_route(d, port, route_of(d, port)) == d,
{
    match d {
        DeviceModel::Plugin(p) => {
            let n = port + 1;
            let once = padded(p.aux_inputs, n).update(port as int, a);
            assert(padded(once, n).update(port as int, b) =~= padded(p.aux_inputs, n).update(port as int, b));
            if route_of(d, port) is Some {
                assert(padded(p.aux_inputs, n).update(port as int, route_of(d, port)) =~= p.aux_inputs);
            }
        },
        _ => {},
    }
}

proof fn lemma_device_write_twice(
    d: DeviceModel,
    id: u64,
    port: u8,
    a: Option<AuxInputRoute>,
    b: Option<AuxInputRoute>,
)
    requires
        lookup::device_find(d, id) is Some,
    ensures
        device_write(d, id, port, a).id() == d.id(),
        lookup::device_find(device_write(d, id, port, a), id) == Some(
            with_route(lookup::device_find(d, id)->0, port, a),
        ),
        device_write(device_write(d, id, port, a), id, port, b) == device_write(d, id, port, b),
        route_of(lookup::device_find(d, id)->0, port) is Some ==> device_write(
            d,
            id,
            port,
            route_of(lookup::device_find(d, id)->0, port),
        ) == d,
    decreases d,
{
    if d.id() == id {
        lemma_with_route_twice(d, port, a, b);
    } else {
        match d {
            DeviceModel::Parallel { id: own, chains } => {
                assert(lookup::device_find(d, id) == lookup::chains_find(chains, id));
                lemma_chains_write_twice(chains, id, port, a, b);
                let e = DeviceModel::Parallel { id: own, chains: chains_write(chains, id, port, a) };
                assert(device_write(d, id, port, a) == e);
                assert(lookup::device_find(e, id) == lookup::chains_find(chains_write(chains, id, port, a), id));
                assert(device_write(e, id, port, b) == (DeviceModel::Parallel {
                    id: own,
                    chains: chains_write(chains_write(chains, id, port, a), id, port, b),
                }));
            },
            _ => {},
        }
    }
}

proof fn lemma_chains_write_twice(
    chains: Seq<ChainModel>,
    id: u64,
    port: u8,
    a: Option<AuxInputRoute>,
    b: Option<AuxInputRoute>,
)
    requires
        lookup::chains_find(chains, id) is Some,
    ensures
        lookup::chains_find(chains_write(chains, id, port, a), id) == Some(
            with_route(lookup::chains_find(chains, id)->0, port, a),
        ),
        chains_write(chains_write(chains, id, port, a), id, port, b) == chains_write(chains, id, port, b),
        route_of(lookup::chains_find(chains, id)->0, port) is Some ==> chains_write(
            chains,
            id,
            port,
            route_of(lookup::chains_find(chains, id)->0, port),
        ) == chains,
    decreases chains,
{
    let rest = chains.drop_first();
    let w = chains_write(chains, id, port, a);
    if lookup::list_find(chains[0].devices, id) is Some {
        lemma_list_write_twice(chains[0].devices, id, port, a, b);
        assert(w[0].devices == list_write(chains[0].devices, id, port, a));
        assert(w.drop_first() =~= rest);
        let r = route_of(lookup::chains_find(chains, id)->0, port);
        if r is Some {
            assert(chains_write(chains, id, port, r) =~= chains);
        }
        assert(chains_write(w, id, port, b) =~= chains_write(chains, id, port, b));
    } else {
        lemma_chains_write_twice(rest, id, port, a, b);
        assert(w[0] == chains[0]);
        assert(w.drop_first() =~= chains_write(rest, id, port, a));
        let r = route_of(lookup::chains_find(chains, id)->0, port);
        if r is Some {
            assert(chains_write(chains, id, port, r) =~= chains);
        }
        assert(chains_write(w, id, port, b) =~= chains_write(chains, id, port, b));
    }
}

proof fn lemma_list_write_twice(
    devices: Seq<DeviceModel>,
    id: u64,
    port: u8,
    a: Option<AuxInputRoute>,
    b: Option<AuxInputRoute>,
)
    requires
        lookup::list_find(devices, id) is Some,
    ensures
        lookup::list_find(list_write(devices, id, port, a), id) == Some(
            with_route(lookup::list_find(devices, id)->0, port, a),
        ),
        list_write(list_write(devices, id, port, a), id, port, b) == list_write(devices, id, port, b),
        route_of(lookup::list_find(devices, id)->0, port) is Some ==> list_write(
            devices,
            id,
            port,
            route_of(lookup::list_find(devices, id)->0, port),
        ) == devices,
    decreases devices,
{
    let rest = devices.drop_first();
    let w = list_write(devices, id, port, a);
    if lookup::device_find(devices[0], id) is Some {
        lemma_device_write_twice(devices[0], id, port, a, b);
        assert(w[0] == device_write(devices[0], id, port, a));
        assert(w.drop_first() =~= rest);
        let r = route_of(lookup::list_find(devices, id)->0, port);
        if r is Some {
            assert(list_write(devices, id, port, r) =~= devices);
        }
        assert(list_write(w, id, port, b) =~= list_write(devices, id, port, b));
    } else {
        lemma_list_write_twice(rest, id, port, a, b);
        assert(w[0] == devices[0]);
        assert(w.drop_first() =~= list_write(rest, id, port, a));
        let r = route_of(lookup::list_find(devices, id)->0, port);
        if r is Some {
            assert(list_write(devices, id, port, r) =~= devices);
        }
        assert(list_write(w, id, port, b) =~= list_write(devices, id, port, b));
    }
}

pub proof fn lemma_tracks_find(tracks: Seq<TrackModel>, id: u64, from: int)
    requires
        0 <= from,
    ensures
        match lookup::tracks_find(tracks, id, from) {
            Some(found) => from <= found.0 < tracks.len() && lookup::list_find(tracks[found.0].devices, id) == Some(
                found.1,
            ) && forall|k: int|
                from <= k < found.0 ==> lookup::list_find((#[trigger] tracks[k]).devices, id) is None,
            None => forall|k: int|
                from <= k < tracks.len() ==> lookup::list_find((#[trigger] tracks[k]).devices, id) is None,
        },
    decreases tracks.len() - from,
{
    if from < tracks.len() && lookup::list_find(tracks[from].devices, id) is None {
        lemma_tracks_find(tracks, id, from + 1);
    }
}

proof fn lemma_tracks_find_is(tracks: Seq<TrackModel>, id: u64, from: int, at: int)
    requires
        0 <= from <= at < tracks.len(),
        lookup::list_find(tracks[at].devices, id) is Some,
        forall|k: int| from <= k < at ==> lookup::list_find((#[trigger] tracks[k]).devices, id) is None,
    ensures
        lookup::tracks_find(tracks, id, from) == Some((at, lookup::list_find(tracks[at].devices, id)->0)),
    decreases at - from,
{
    if from < at {
        assert(lookup::list_find(tracks[from].devices, id) is None);
        lemma_tracks_find_is(tracks, id, from + 1, at);
    }
}

/// The last wiring of a port counts, and wiring it as it is changes nothing.
pub proof fn law_wiring_overwrites(song: SongModel, id: u64, port: u8, a: Option<AuxInputRoute>, b: Option<AuxInputRoute>)
    requires
        song.device(id) is Some,
    ensures
        song.with_route(id, port, a).device(id) == Some(with_route(song.device(id)->0, port, a)),
        song.with_route(id, port, a).with_route(id, port, b) == song.with_route(id, port, b),
        route_of(song.device(id)->0, port) is Some ==> song.with_route(id, port, route_of(song.device(id)->0, port))
            == song,
{
    let once = song.with_route(id, port, a);
    lemma_tracks_find(song.tracks, id, 0);
    match lookup::tracks_find(song.tracks, id, 0) {
        Some(found) => {
            let i = found.0;
            lemma_list_write_twice(song.tracks[i].devices, id, port, a, b);
            assert forall|k: int| 0 <= k < i implies lookup::list_find((#[trigger] once.tracks[k]).devices, id)
                is None by {
                assert(once.tracks[k] == song.tracks[k]);
            }
            lemma_tracks_find_is(once.tracks, id, 0, i);
            assert(once.with_route(id, port, b).tracks =~= song.with_route(id, port, b).tracks);
            if route_of(song.device(id)->0, port) is Some {
                assert(song.with_route(id, port, route_of(song.device(id)->0, port)).tracks =~= song.tracks);
            }
        },
        None => {
            lemma_list_write_twice(song.master_fx_chain, id, port, a, b);
        },
    }
}

// ---------------------------------------------------------------------------
// Dropping wiring that an edit brought
// ---------------------------------------------------------------------------

/// Consumers with the id of their owner.
pub open spec fn owned(owner: u32, cs: Seq<ConsumerModel>) -> Seq<(u32, ConsumerModel)> {
    Seq::new(cs.len(), |i: int| (owner, cs[i]))
}

/// The consumers of the first `n` tracks.
pub open spec fn tracks_consumers(tracks: Seq<TrackModel>, n: nat) -> Seq<(u32, ConsumerModel)>
    decreases n,
{
    if n == 0 {
        Seq::empty()
    } else {
        tracks_consumers(tracks, (n - 1) as nat) + owned(
            tracks[n - 1].id,
            graph::track_consumers(tracks[n - 1]),
        )
    }
}

impl SongModel {
    /// Every consumer with the id of its owner: the tracks in order, then the
    /// master bus.
    pub open spec fn all_consumers(self) -> Seq<(u32, ConsumerModel)> {
        tracks_consumers(self.tracks, self.tracks.len()) + owned(
            MASTER_TRACK_ID,
            consumers::consumers(self.master_fx_chain, self.song_lanes, self.song_mod_routings),
        )
    }
}

/// One wired port: its owner, device and number.
pub struct WiredPort {
    pub owner: u32,
    pub device: u64,
    pub port: u8,
}

/// Whether a port is to be judged for the devices an edit brought.
pub open spec fn judged(c: ConsumerModel, port: int, brought: Seq<u64>, own: bool) -> bool {
    &&& port <= 255
    &&& c.routes[port] is Some
    &&& if own {
        brought.contains(c.device_id)
    } else {
        !brought.contains(c.device_id) && (match c.routes[port]->0.tap.source {
            TapSource::Chain(chain) => brought.contains(chain),
            TapSource::Track(_) => false,
        })
    }
}

/// The judged ports among the first `n` of a consumer.
pub open spec fn judged_ports(owner: u32, c: ConsumerModel, brought: Seq<u64>, own: bool, n: nat) -> Seq<WiredPort>
    decreases n,
{
    if n == 0 {
        Seq::empty()
    } else {
        let before = judged_ports(owner, c, brought, own, (n - 1) as nat);
        if judged(c, n - 1, brought, own) {
            before.push(WiredPort { owner, device: c.device_id, port: (n - 1) as u8 })
        } else {
            before
        }
    }
}

/// The judged ports of the first `n` consumers: those of the devices that were
/// brought (`own`), or those of other devices that read a chain that was brought.
pub open spec fn all_judged(cs: Seq<(u32, ConsumerModel)>, brought: Seq<u64>, own: bool, n: nat) -> Seq<WiredPort>
    decreases n,
{
    if n == 0 {
        Seq::empty()
    } else {
        all_judged(cs, brought, own, (n - 1) as nat) + judged_ports(
            cs[n - 1].0,
            cs[n - 1].1,
            brought,
            own,
            cs[n - 1].1.routes.len(),
        )
    }
}

impl SongModel {
    /// Whether the wiring of a port closes a cycle with what else is wired. A
    /// device that reads its own track does not.
    pub open spec fn port_closes_cycle(self, p: WiredPort) -> bool {
        match self.device(p.device) {
            None => false,
            Some(d) => match route_of(d, p.port) {
                None => false,
                Some(route) => match self.producer(route.tap.source) {
                    None => false,
                    Some(producer) => producer != p.owner && self.with_route(p.device, p.port, None).closes_cycle(
                        p.owner,
                        producer,
                    ),
                },
            },
        }
    }

    /// The song without the wiring of a port, if that closes a cycle.
    pub open spec fn without_cyclic(self, p: WiredPort) -> SongModel {
        if self.port_closes_cycle(p) {
            self.with_route(p.device, p.port, None)
        } else {
            self
        }
    }
}

/// The song after judging the first `n` ports one after the other, and how many
/// lost their wiring.
pub open spec fn after_judging(song: SongModel, ports: Seq<WiredPort>, n: nat) -> (SongModel, nat)
    decreases n,
{
    if n == 0 {
        (song, 0)
    } else {
        let before = after_judging(song, ports, (n - 1) as nat);
        (
            before.0.without_cyclic(ports[n - 1]),
            if before.0.port_closes_cycle(ports[n - 1]) {
                before.1 + 1
            } else {
                before.1
            },
        )
    }
}

/// Consumers with their owners, as models.
pub open spec fn owned_models(cs: Seq<(u32, AuxConsumer)>) -> Seq<(u32, ConsumerModel)> {
    Seq::new(cs.len(), |i: int| (cs[i].0, cs[i].1@))
}

/// Appends consumers with the id of their owner.
fn push_owned(owner: u32, cs: Vec<AuxConsumer>, out: &mut Vec<(u32, AuxConsumer)>)
    ensures
        owned_models(final(out)@) == owned_models(old(out)@) + owned(owner, model::models(cs@)),
{
    let ghost list = cs@;
    let ghost all = model::models(list);
    let ghost start = owned_models(out@);
    assert(start + owned(owner, all.take(0)) =~= start);
    for c in walk: cs
        invariant
            walk.seq() == list,
            all == model::models(list),
            owned_models(out@) == start + owned(owner, all.take(walk.index() as int)),
    {
        let ghost n: int = walk.index() as int;
        let ghost prev = out@;
        out.push((owner, c));
        proof {
            assert(c@ == all[n]);
            assert(owned_models(out@) =~= owned_models(prev).push((owner, c@)));
            assert(owned_models(prev).push((owner, c@)) =~= start + owned(owner, all.take(n + 1)));
        }
    }
    assert(all.take(all.len() as int) =~= all);
}

impl Song {
    /// Every consumer with the id of its owner: the tracks in order, then the
    /// master bus.
    pub fn all_aux_consumers(&self) -> (r: Vec<(u32, AuxConsumer)>)
        ensures
            owned_models(r@) == self@.all_consumers(),
    {
        let ghost tm = self@.tracks;
        let mut r: Vec<(u32, AuxConsumer)> = Vec::new();
        assert(owned_models(r@) =~= tracks_consumers(tm, 0));
        let mut i: usize = 0;
        while i < self.tracks.len()
            invariant
                tm == self@.tracks,
                i <= tm.len(),
                owned_models(r@) == tracks_consumers(tm, i as nat),
            decreases tm.len() - i,
        {
            let t = &self.tracks[i];
            assert(tm[i as int] == t@);
            let cs = aux_consumers(
                t.devices.as_slice(),
                t.automation_lanes.as_slice(),
                t.mod_routings.as_slice(),
            ).collect();
            push_owned(t.id, cs, &mut r);
            i += 1;
        }
        let cs = aux_consumers(
            self.master_fx_chain.as_slice(),
            self.song_lanes.as_slice(),
            self.song_mod_routings.as_slice(),
        ).collect();
        push_owned(MASTER_TRACK_ID, cs, &mut r);
        r
    }

    /// Drops the wiring of a port if it closes a cycle. Returns whether it did.
    fn drop_aux_route_if_cyclic(&mut self, p: &WiredPort) -> (r: bool)
        ensures
            r == old(self)@.port_closes_cycle(*p),
            final(self)@ == old(self)@.without_cyclic(*p),
    {
        let route = match self.device_by_id(p.device) {
            Some(d) => match aux_input(d, p.port) {
                Some(route) => route,
                None => {
                    return false;
                },
            },
            None => {
                return false;
            },
        };
        let producer: u32 = match self.tap_producer(route.tap.source) {
            Some(producer) => producer,
            None => {
                return false;
            },
        };
        if producer == p.owner {
            return false;
        }
        let ghost before = self@;
        self.write_route(p.device, p.port, None);
        if self.would_cycle(p.owner, producer) {
            return true;
        }
        proof {
            law_wiring_overwrites(before, p.device, p.port, None, Some(route));
        }
        self.write_route(p.device, p.port, Some(route));
        false
    }

    /// The judged ports of every consumer.
    fn judged_ports(&self, brought: &[u64], own: bool) -> (r: Vec<WiredPort>)
        ensures
            r@ == all_judged(self@.all_consumers(), brought@, own, self@.all_consumers().len()),
    {
        let cs = self.all_aux_consumers();
        let ghost cm = self@.all_consumers();
        let mut r: Vec<WiredPort> = Vec::new();
        let mut i: usize = 0;
        while i < cs.len()
            invariant
                cm == owned_models(cs@),
                i <= cs@.len(),
                r@ == all_judged(cm, brought@, own, i as nat),
            decreases cs@.len() - i,
        {
            let owner: u32 = cs[i].0;
            let c = &cs[i].1;
            assert(cm[i as int] == (owner, c@));
            let ghost start = r@;
            let mine = holds_node(brought, c.device_id);
            let mut port: usize = 0;
            assert(start + judged_ports(owner, c@, brought@, own, 0) =~= start);
            while port < c.routes.len()
                invariant
                    port <= c.routes@.len(),
                    mine == brought@.contains(c.device_id),
                    r@ == start + judged_ports(owner, c@, brought@, own, port as nat),
                decreases c.routes@.len() - port,
            {
                let ghost prev = judged_ports(owner, c@, brought@, own, port as nat);
                if port <= 255 {
                    if let Some(route) = c.routes[port] {
                        let reads = match route.tap.source {
                            TapSource::Chain(chain) => holds_node(brought, chain),
                            TapSource::Track(_) => false,
                        };
                        if (own && mine) || (!own && !mine && reads) {
                            r.push(WiredPort { owner, device: c.device_id, port: port as u8 });
                            assert(start + prev.push(
                                WiredPort { owner, device: c.device_id, port: port as u8 },
                            ) =~= (start + prev).push(WiredPort { owner, device: c.device_id, port: port as u8 }));
                        }
                    }
                }
                port += 1;
            }
            i += 1;
        }
        r
    }

    /// Drops the wiring that an edit brought and that closes a cycle, one port at
    /// a time. `brought` are the ids of every node the edit placed, contents of
    /// racks and their chains included. First the ports of those devices are
    /// judged, then the ports of other devices that read one of those chains,
    /// whose owner has changed. Other wiring is left alone, cyclic or not.
    /// Returns how many ports lost their wiring.
    pub fn drop_cyclic_aux_routes(&mut self, brought: &[u64]) -> (r: usize)
        ensures
            ({
                let cs = old(self)@.all_consumers();
                let ports = all_judged(cs, brought@, true, cs.len()) + all_judged(cs, brought@, false, cs.len());
                final(self)@ == after_judging(old(self)@, ports, ports.len()).0 && r == after_judging(
                    old(self)@,
                    ports,
                    ports.len(),
                ).1
            }),
    {
        let mut ports = self.judged_ports(brought, true);
        let mut reading = self.judged_ports(brought, false);
        ports.append(&mut reading);
        let ghost start = self@;
        let mut dropped: usize = 0;
        let mut i: usize = 0;
        while i < ports.len()
            invariant
                i <= ports@.len(),
                dropped <= i,
                self@ == after_judging(start, ports@, i as nat).0,
                dropped == after_judging(start, ports@, i as nat).1,
            decreases ports@.len() - i,
        {
            if self.drop_aux_route_if_cyclic(&ports[i]) {
                dropped += 1;
            }
            i += 1;
        }
        dropped
    }
}

/// Whether `ids` holds `id`.
fn holds_node(ids: &[u64], id: u64) -> (r: bool)
    ensures
        r == ids@.contains(id),
{
    let mut i: usize = 0;
    while i < ids.len()
        invariant
            i <= ids@.len(),
            forall|k: int| 0 <= k < i ==> ids@[k] != id,
        decreases ids@.len() - i,
    {
        if ids[i] == id {
            return true;
        }
        i += 1;
    }
    false
}

} // verus!
