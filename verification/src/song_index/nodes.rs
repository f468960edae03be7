//! Devices and chains by id.
//!
//! Every device of a chain, at whatever depth, has a path: its place, and
//! inside a rack the place of the chain and the place in it, and so on.

use crate::model::device;
use crate::model::device::{ChainModel, Device, DeviceModel, NativeDevice, Parallel, ParallelChain};
use crate::model::lookup;
use crate::model::{Song, SongModel, TrackModel};
use super::positions;
use super::positions::PositionIndex;
use vstd::prelude::*;

verus! {

// ---------------------------------------------------------------------------
// Devices in order
// ---------------------------------------------------------------------------

/// A device and the devices inside it, in the order in which they are searched.
pub open spec fn device_nodes(d: DeviceModel) -> Seq<DeviceModel>
    decreases d,
{
    match d {
        DeviceModel::Parallel { id: _, chains } => seq![d] + chains_nodes(chains),
        _ => seq![d],
    }
}

/// The devices inside chains.
pub open spec fn chains_nodes(chains: Seq<ChainModel>) -> Seq<DeviceModel>
    decreases chains,
{
    if chains.len() == 0 {
        Seq::empty()
    } else {
        list_nodes(chains[0].devices) + chains_nodes(chains.drop_first())
    }
}

/// The devices of a chain, at whatever depth.
pub open spec fn list_nodes(devices: Seq<DeviceModel>) -> Seq<DeviceModel>
    decreases devices,
{
    if devices.len() == 0 {
        Seq::empty()
    } else {
        device_nodes(devices[0]) + list_nodes(devices.drop_first())
    }
}

/// Paths below a step.
pub open spec fn below(i: int, c: int, paths: Seq<Seq<int>>) -> Seq<Seq<int>> {
    paths.map_values(|p: Seq<int>| seq![i, c] + p)
}

/// The paths of a device at place `i` and of the devices inside it.
pub open spec fn device_paths(d: DeviceModel, i: int) -> Seq<Seq<int>>
    decreases d,
{
    match d {
        DeviceModel::Parallel { id: _, chains } => seq![seq![i]] + chains_paths(chains, i, 0),
        _ => seq![seq![i]],
    }
}

/// The paths of the devices inside chains, the first of which is at place `c`.
pub open spec fn chains_paths(chains: Seq<ChainModel>, i: int, c: int) -> Seq<Seq<int>>
    decreases chains,
{
    if chains.len() == 0 {
        Seq::empty()
    } else {
        below(i, c, list_paths(chains[0].devices, 0)) + chains_paths(chains.drop_first(), i, c + 1)
    }
}

/// The paths of the devices of a chain, the first of which is at place `i`.
pub open spec fn list_paths(devices: Seq<DeviceModel>, i: int) -> Seq<Seq<int>>
    decreases devices,
{
    if devices.len() == 0 {
        Seq::empty()
    } else {
        device_paths(devices[0], i) + list_paths(devices.drop_first(), i + 1)
    }
}

/// The device that a path leads to.
pub open spec fn at_path(devices: Seq<DeviceModel>, path: Seq<int>) -> Option<DeviceModel>
    decreases path.len(),
{
    if path.len() == 0 || !(0 <= path[0] < devices.len()) {
        None
    } else if path.len() == 1 {
        Some(devices[path[0]])
    } else {
        match devices[path[0]] {
            DeviceModel::Parallel { id: _, chains } => if 0 <= path[1] < chains.len() {
                at_path(chains[path[1]].devices, path.skip(2))
            } else {
                None
            },
            _ => None,
        }
    }
}

/// Every path of a chain leads to the device at the same place.
proof fn lemma_list_paths(devices: Seq<DeviceModel>, i: int, whole: Seq<DeviceModel>)
    requires
        0 <= i,
        whole.skip(i) == devices,
        i <= whole.len(),
    ensures
        list_paths(devices, i).len() == list_nodes(devices).len(),
        forall|k: int|
            0 <= k < list_paths(devices, i).len() ==> at_path(whole, #[trigger] list_paths(devices, i)[k]) == Some(
                list_nodes(devices)[k],
            ),
    decreases devices,
{
    if devices.len() > 0 {
        let rest = devices.drop_first();
        assert(decreases_to!(devices => devices[0]));
        assert(decreases_to!(devices => rest));
        assert(whole.skip(i + 1) =~= rest);
        assert(whole[i] == devices[0]);
        lemma_device_paths(devices[0], i, whole);
        lemma_list_paths(rest, i + 1, whole);
        let a = device_paths(devices[0], i);
        let b = list_paths(rest, i + 1);
        let x = device_nodes(devices[0]);
        let y = list_nodes(rest);
        assert forall|k: int| 0 <= k < (a + b).len() implies at_path(whole, #[trigger] (a + b)[k]) == Some((x + y)[k]) by {
            if k < a.len() {
                assert((a + b)[k] == a[k]);
                assert((x + y)[k] == x[k]);
                assert(at_path(whole, a[k]) == Some(x[k]));
            } else {
                assert((a + b)[k] == b[k - a.len()]);
                assert((x + y)[k] == y[k - x.len()]);
                assert(at_path(whole, b[k - a.len()]) == Some(y[k - x.len()]));
            }
        }
    }
}

proof fn lemma_device_paths(d: DeviceModel, i: int, whole: Seq<DeviceModel>)
    requires
        0 <= i < whole.len(),
        whole[i] == d,
    ensures
        device_paths(d, i).len() == device_nodes(d).len(),
        forall|k: int|
            0 <= k < device_paths(d, i).len() ==> at_path(whole, #[trigger] device_paths(d, i)[k]) == Some(
                device_nodes(d)[k],
            ),
    decreases d,
{
    if let DeviceModel::Parallel { id, chains } = d {
        assert(decreases_to!(d => d->Parallel_chains));
        assert(chains.skip(0) =~= chains);
        lemma_chains_paths(chains, i, 0, d, whole);
        let a = seq![seq![i]];
        let b = chains_paths(chains, i, 0);
        let x = seq![d];
        let y = chains_nodes(chains);
        assert(device_paths(d, i) == a + b);
        assert(device_nodes(d) == x + y);
        assert forall|k: int| 0 <= k < (a + b).len() implies at_path(whole, #[trigger] (a + b)[k]) == Some((x + y)[k]) by {
            if k == 0 {
                assert((a + b)[k] == seq![i]);
            } else {
                assert((a + b)[k] == b[k - 1]);
                assert((x + y)[k] == y[k - 1]);
                assert(at_path(whole, b[k - 1]) == Some(y[k - 1]));
            }
        }
    }
}

proof fn lemma_chains_paths(chains: Seq<ChainModel>, i: int, c: int, d: DeviceModel, whole: Seq<DeviceModel>)
    requires
        0 <= i < whole.len(),
        whole[i] == d,
        d is Parallel,
        0 <= c <= d->Parallel_chains.len(),
        d->Parallel_chains.skip(c) == chains,
    ensures
        chains_paths(chains, i, c).len() == chains_nodes(chains).len(),
        forall|k: int|
            0 <= k < chains_paths(chains, i, c).len() ==> at_path(whole, #[trigger] chains_paths(chains, i, c)[k])
                == Some(chains_nodes(chains)[k]),
    decreases chains,
{
    if chains.len() > 0 {
        let rest = chains.drop_first();
        let inner = chains[0].devices;
        assert(decreases_to!(chains => chains[0]));
        assert(decreases_to!(chains[0] => chains[0].devices));
        assert(decreases_to!(chains => rest));
        assert(d->Parallel_chains.skip(c + 1) =~= rest);
        assert(d->Parallel_chains[c] == chains[0]);
        assert(inner.skip(0) =~= inner);
        lemma_list_paths(inner, 0, inner);
        lemma_chains_paths(rest, i, c + 1, d, whole);
        let p = list_paths(inner, 0);
        let a = below(i, c, p);
        let b = chains_paths(rest, i, c + 1);
        let x = list_nodes(inner);
        let y = chains_nodes(rest);
        assert forall|k: int| 0 <= k < (a + b).len() implies at_path(whole, #[trigger] (a + b)[k]) == Some((x + y)[k]) by {
            if k < a.len() {
                assert((a + b)[k] == seq![i, c] + p[k]);
                assert((x + y)[k] == x[k]);
                assert(at_path(inner, p[k]) == Some(x[k]));
                let path = seq![i, c] + p[k];
                assert(p[k].len() > 0);
                assert(path.len() >= 3);
                assert(path.skip(2) =~= p[k]);
                assert(path[0] == i && path[1] == c);
                assert(at_path(whole, path) == at_path(inner, path.skip(2)));
            } else {
                assert((a + b)[k] == b[k - a.len()]);
                assert((x + y)[k] == y[k - x.len()]);
                assert(at_path(whole, b[k - a.len()]) == Some(y[k - x.len()]));
            }
        }
    }
}

// ---------------------------------------------------------------------------
// Searching from the front
// ---------------------------------------------------------------------------

/// The first of several devices with an id, from `from` on.
pub open spec fn node_from(nodes: Seq<DeviceModel>, id: u64, from: int) -> Option<DeviceModel>
    decreases nodes.len() - from,
{
    if from < 0 || from >= nodes.len() {
        None
    } else if nodes[from].id() == id {
        Some(nodes[from])
    } else {
        node_from(nodes, id, from + 1)
    }
}

proof fn lemma_node_add(a: Seq<DeviceModel>, b: Seq<DeviceModel>, id: u64, from: int)
    requires
        0 <= from <= a.len(),
    ensures
        node_from(a + b, id, from) == (match node_from(a, id, from) {
            Some(d) => Some(d),
            None => node_from(b, id, 0),
        }),
    decreases a.len() - from,
{
    if from < a.len() {
        assert((a + b)[from] == a[from]);
        lemma_node_add(a, b, id, from + 1);
    } else {
        lemma_node_shift(a, b, id, 0);
    }
}

proof fn lemma_node_shift(a: Seq<DeviceModel>, b: Seq<DeviceModel>, id: u64, from: int)
    requires
        0 <= from <= b.len(),
    ensures
        node_from(a + b, id, a.len() + from) == node_from(b, id, from),
    decreases b.len() - from,
{
    if from < b.len() {
        assert((a + b)[a.len() + from] == b[from]);
        lemma_node_shift(a, b, id, from + 1);
    }
}

/// Searching a chain is searching its devices in order.
proof fn lemma_list_find(devices: Seq<DeviceModel>, id: u64)
    ensures
        lookup::list_find(devices, id) == node_from(list_nodes(devices), id, 0),
    decreases devices,
{
    if devices.len() > 0 {
        let rest = devices.drop_first();
        assert(decreases_to!(devices => devices[0]));
        assert(decreases_to!(devices => rest));
        lemma_device_find(devices[0], id);
        lemma_list_find(rest, id);
        lemma_node_add(device_nodes(devices[0]), list_nodes(rest), id, 0);
    }
}

proof fn lemma_device_find(d: DeviceModel, id: u64)
    ensures
        lookup::device_find(d, id) == node_from(device_nodes(d), id, 0),
    decreases d,
{
    match d {
        DeviceModel::Parallel { id: _, chains } => {
            assert(decreases_to!(d => d->Parallel_chains));
            lemma_chains_find(chains, id);
            lemma_node_add(seq![d], chains_nodes(chains), id, 0);
            assert(node_from(seq![d], id, 1) is None);
            assert(node_from(seq![d], id, 0) == if d.id() == id {
                Some(d)
            } else {
                None
            });
        },
        _ => {
            assert(node_from(seq![d], id, 1) is None);
            assert(device_nodes(d) == seq![d]);
        },
    }
}

proof fn lemma_chains_find(chains: Seq<ChainModel>, id: u64)
    ensures
        lookup::chains_find(chains, id) == node_from(chains_nodes(chains), id, 0),
    decreases chains,
{
    if chains.len() > 0 {
        let rest = chains.drop_first();
        assert(decreases_to!(chains => chains[0]));
        assert(decreases_to!(chains[0] => chains[0].devices));
        assert(decreases_to!(chains => rest));
        lemma_list_find(chains[0].devices, id);
        lemma_chains_find(rest, id);
        lemma_node_add(list_nodes(chains[0].devices), chains_nodes(rest), id, 0);
    }
}

/// The ids of devices.
pub open spec fn node_ids(nodes: Seq<DeviceModel>) -> Seq<u64> {
    nodes.map_values(|d: DeviceModel| d.id())
}

proof fn lemma_node_place(nodes: Seq<DeviceModel>, id: u64, from: int)
    requires
        0 <= from <= nodes.len(),
    ensures
        node_from(nodes, id, from) == (match positions::place_from(
            positions::long_keys(node_ids(nodes)),
            id as u128,
            from,
        ) {
            Some(i) => Some(nodes[i]),
            None => None,
        }),
    decreases nodes.len() - from,
{
    if from < nodes.len() {
        lemma_node_place(nodes, id, from + 1);
    }
}

/// The first native device with an id, from `from` on.
pub open spec fn native_from(nodes: Seq<DeviceModel>, id: u64, from: int) -> Option<NativeDevice>
    decreases nodes.len() - from,
{
    if from < 0 || from >= nodes.len() {
        None
    } else {
        match nodes[from] {
            DeviceModel::Native(n) => if n.id == id {
                Some(n)
            } else {
                native_from(nodes, id, from + 1)
            },
            _ => native_from(nodes, id, from + 1),
        }
    }
}

/// The first native device with id `id` among the devices of a chain, at
/// whatever depth. Other devices with that id are passed over.
pub open spec fn native_find(devices: Seq<DeviceModel>, id: u64) -> Option<NativeDevice> {
    native_from(list_nodes(devices), id, 0)
}

/// The key of a device as a native one: its id, or a number that is none.
pub open spec fn native_key(d: DeviceModel) -> u128 {
    match d {
        DeviceModel::Native(n) => n.id as u128,
        _ => 0x1_0000_0000_0000_0000,
    }
}

/// The keys of devices as native ones.
pub open spec fn native_keys(nodes: Seq<DeviceModel>) -> Seq<u128> {
    nodes.map_values(|d: DeviceModel| native_key(d))
}

proof fn lemma_native_place(nodes: Seq<DeviceModel>, id: u64, from: int)
    requires
        0 <= from <= nodes.len(),
    ensures
        native_from(nodes, id, from) == (match positions::place_from(native_keys(nodes), id as u128, from) {
            Some(i) => Some(nodes[i]->Native_0),
            None => None,
        }),
        positions::place_from(native_keys(nodes), id as u128, from) matches Some(i) ==> 0 <= i < nodes.len()
            && nodes[i] is Native,
    decreases nodes.len() - from,
{
    if from < nodes.len() {
        lemma_native_place(nodes, id, from + 1);
    }
}

/// The ids of the chains of a rack; none for other devices.
pub open spec fn chain_ids_of(d: DeviceModel) -> Seq<u64> {
    match d {
        DeviceModel::Parallel { id: _, chains } => chains.map_values(|c: ChainModel| c.id),
        _ => Seq::empty(),
    }
}

/// The first chain of a rack with an id, from `from` on.
pub open spec fn chain_from(chains: Seq<ChainModel>, id: u64, from: int) -> Option<ChainModel>
    decreases chains.len() - from,
{
    if from < 0 || from >= chains.len() {
        None
    } else if chains[from].id == id {
        Some(chains[from])
    } else {
        chain_from(chains, id, from + 1)
    }
}

proof fn lemma_chain_place(chains: Seq<ChainModel>, ids: Seq<u64>, id: u64, from: int)
    requires
        0 <= from <= chains.len(),
        ids == chains.map_values(|c: ChainModel| c.id),
    ensures
        chain_from(chains, id, from) == (match positions::place_from(positions::long_keys(ids), id as u128, from) {
            Some(i) => Some(chains[i]),
            None => None,
        }),
    decreases chains.len() - from,
{
    if from < chains.len() {
        lemma_chain_place(chains, ids, id, from + 1);
    }
}

impl SongModel {
    /// The chain with id `chain_id` of the rack that is the first device with id
    /// `parallel_id`.
    pub open spec fn chain_in(self, parallel_id: u64, chain_id: u64) -> Option<ChainModel> {
        match self.device(parallel_id) {
            Some(DeviceModel::Parallel { id: _, chains }) => chain_from(chains, chain_id, 0),
            _ => None,
        }
    }
}

// ---------------------------------------------------------------------------
// The devices of one chain
// ---------------------------------------------------------------------------

/// A path as numbers.
spec fn path_of(v: Seq<usize>) -> Seq<int> {
    v.map_values(|i: usize| i as int)
}

/// Paths as numbers.
spec fn paths_of(v: Seq<Vec<usize>>) -> Seq<Seq<int>> {
    Seq::new(v.len(), |i: int| path_of(v[i]@))
}

/// The device that a path leads to, from step `k` on.
fn walk<'a>(devices: &'a Vec<Device>, path: &Vec<usize>, k: usize) -> (r: Option<&'a Device>)
    requires
        k <= path@.len(),
    ensures
        match r {
            Some(d) => at_path(device::device_models(devices@), path_of(path@).skip(k as int)) == Some(d@),
            None => at_path(device::device_models(devices@), path_of(path@).skip(k as int)) is None,
        },
    decreases path@.len() - k,
{
    let ghost dm = device::device_models(devices@);
    let ghost left = path_of(path@).skip(k as int);
    if k >= path.len() {
        return None;
    }
    assert(left[0] == path@[k as int]);
    let i: usize = path[k];
    if i >= devices.len() {
        return None;
    }
    assert(dm[i as int] == device::device_model(devices@[i as int]));
    if path.len() - k == 1 {
        return Some(&devices[i]);
    }
    match &devices[i] {
        Device::Parallel(p) => {
            let c: usize = path[k + 1];
            assert(left[1] == c);
            if c >= p.chains.len() {
                return None;
            }
            proof {
                let chains = device::chain_models(p.chains@);
                assert(chains[c as int] == device::chain_model(p.chains@[c as int]));
                assert(left.skip(2) =~= path_of(path@).skip(k + 2));
            }
            walk(&p.chains[c].devices, path, k + 2)
        },
        _ => None,
    }
}

/// Appends the paths of the devices inside a rack at place `i`.
fn push_inner_paths(p: &Parallel, i: usize, out: &mut Vec<Vec<usize>>)
    ensures
        paths_of(final(out)@) == paths_of(old(out)@) + chains_paths(device::chain_models(p.chains@), i as int, 0),
    decreases p.chains@,
{
    let ghost chains = device::chain_models(p.chains@);
    let ghost start = paths_of(out@);
    let ghost all = chains_paths(chains, i as int, 0);
    let mut c: usize = 0;
    assert(chains.skip(0) =~= chains);
    assert(start + all =~= paths_of(out@) + all);
    while c < p.chains.len()
        invariant
            chains == device::chain_models(p.chains@),
            c <= p.chains@.len(),
            start + all == paths_of(out@) + chains_paths(chains.skip(c as int), i as int, c as int),
        decreases p.chains@.len() - c,
    {
        let ghost rest = chains.skip(c as int);
        let ghost now = paths_of(out@);
        proof {
            assert(rest[0] == chains[c as int]);
            assert(chains[c as int] == device::chain_model(p.chains@[c as int]));
            assert(rest.drop_first() =~= chains.skip(c + 1));
            assert(decreases_to!(p.chains@ => p.chains@[c as int]));
            assert(decreases_to!(p.chains@[c as int] => p.chains@[c as int].devices));
            assert(decreases_to!(p.chains@[c as int].devices => p.chains@[c as int].devices@));
        }
        let inner = collect_paths(&p.chains[c].devices);
        let ghost sub = list_paths(rest[0].devices, 0);
        let mut k: usize = 0;
        assert(below(i as int, c as int, sub).take(0) =~= Seq::<Seq<int>>::empty());
        assert(now + Seq::<Seq<int>>::empty() =~= now);
        while k < inner.len()
            invariant
                paths_of(inner@) == sub,
                k <= inner@.len(),
                paths_of(out@) == now + below(i as int, c as int, sub).take(k as int),
            decreases inner@.len() - k,
        {
            let ghost before = paths_of(out@);
            let mut path: Vec<usize> = Vec::new();
            path.push(i);
            path.push(c);
            let mut j: usize = 0;
            while j < inner[k].len()
                invariant
                    k < inner@.len(),
                    j <= inner@[k as int]@.len(),
                    path@ == seq![i, c] + inner@[k as int]@.take(j as int),
                decreases inner@[k as int]@.len() - j,
            {
                path.push(inner[k][j]);
                j += 1;
                assert(path@ =~= seq![i, c] + inner@[k as int]@.take(j as int));
            }
            proof {
                assert(inner@[k as int]@.take(j as int) =~= inner@[k as int]@);
                assert(sub[k as int] == path_of(inner@[k as int]@));
                assert(path_of(path@) =~= seq![i as int, c as int] + sub[k as int]);
            }
            out.push(path);
            proof {
                let b = below(i as int, c as int, sub);
                assert(b[k as int] == path_of(path@));
                assert(paths_of(out@) =~= before.push(path_of(path@)));
                assert(b.take(k + 1) =~= b.take(k as int).push(b[k as int]));
                assert(paths_of(out@) =~= now + b.take(k + 1));
            }
            k += 1;
        }
        proof {
            let b = below(i as int, c as int, sub);
            assert(b.take(k as int) =~= b);
            let tail = chains_paths(chains.skip(c + 1), i as int, c + 1);
            assert(chains_paths(rest, i as int, c as int) == b + tail);
            assert(now + (b + tail) =~= (now + b) + tail);
        }
        c += 1;
    }
    assert(chains.skip(c as int) =~= Seq::<ChainModel>::empty());
    assert(paths_of(out@) + Seq::<Seq<int>>::empty() =~= paths_of(out@));
}

/// The paths of the devices of a chain.
fn collect_paths(devices: &Vec<Device>) -> (r: Vec<Vec<usize>>)
    ensures
        paths_of(r@) == list_paths(device::device_models(devices@), 0),
    decreases devices@,
{
    let ghost dm = device::device_models(devices@);
    let ghost all = list_paths(dm, 0);
    let mut r: Vec<Vec<usize>> = Vec::new();
    let mut i: usize = 0;
    assert(dm.skip(0) =~= dm);
    assert(paths_of(r@) + all =~= all);
    while i < devices.len()
        invariant
            dm == device::device_models(devices@),
            i <= devices@.len(),
            all == paths_of(r@) + list_paths(dm.skip(i as int), i as int),
        decreases devices@.len() - i,
    {
        let ghost rest = dm.skip(i as int);
        let ghost now = paths_of(r@);
        proof {
            assert(rest[0] == dm[i as int]);
            assert(dm[i as int] == device::device_model(devices@[i as int]));
            assert(rest.drop_first() =~= dm.skip(i + 1));
        }
        let mut own: Vec<usize> = Vec::new();
        own.push(i);
        assert(path_of(own@) =~= seq![i as int]);
        r.push(own);
        assert(paths_of(r@) =~= now + seq![seq![i as int]]);
        if let Device::Parallel(p) = &devices[i] {
            proof {
                let d = devices@[i as int];
                assert(decreases_to!(devices@ => devices@[i as int]));
                assert(decreases_to!(d => d->Parallel_0));
                assert(decreases_to!(d->Parallel_0 => d->Parallel_0.chains));
                assert(decreases_to!(p.chains => p.chains@));
            }
            push_inner_paths(p, i, &mut r);
        }
        proof {
            let tail = list_paths(dm.skip(i + 1), i + 1);
            let own_paths = device_paths(rest[0], i as int);
            assert(paths_of(r@) =~= now + own_paths);
            assert(list_paths(rest, i as int) == own_paths + tail);
            assert(now + (own_paths + tail) =~= (now + own_paths) + tail);
        }
        i += 1;
    }
    assert(dm.skip(i as int) =~= Seq::<DeviceModel>::empty());
    assert(paths_of(r@) + Seq::<Seq<int>>::empty() =~= paths_of(r@));
    r
}

/// A device of a chain.
struct Node {
    path: Vec<usize>,
    /// The places of the chains of a rack, by id.
    chains: PositionIndex,
}

/// The devices of one chain, at whatever depth.
pub struct ChainNodes {
    nodes: Vec<Node>,
    natives: PositionIndex,
    of: Ghost<Seq<DeviceModel>>,
}

impl ChainNodes {
    /// The chain that this is the index of.
    pub closed spec fn of(self) -> Seq<DeviceModel> {
        self.of@
    }

    #[verifier::type_invariant]
    spec fn inv(self) -> bool {
        let all = list_nodes(self.of@);
        &&& self.nodes@.len() == all.len()
        &&& forall|k: int|
            0 <= k < all.len() ==> path_of((#[trigger] self.nodes@[k]).path@) == list_paths(self.of@, 0)[k]
                && self.nodes@[k].chains.of() == positions::long_keys(chain_ids_of(all[k]))
        &&& self.natives.of() == native_keys(all)
    }

    /// The index of a chain.
    pub fn build(devices: &Vec<Device>) -> (r: ChainNodes)
        ensures
            r.of() == device::device_models(devices@),
    {
        let ghost dm = device::device_models(devices@);
        let ghost all = list_nodes(dm);
        let paths = collect_paths(devices);
        proof {
            assert(dm.skip(0) =~= dm);
            lemma_list_paths(dm, 0, dm);
        }
        let mut nodes: Vec<Node> = Vec::new();
        let mut keys: Vec<u128> = Vec::new();
        assert(all.len() == paths@.len()) by {
            assert(paths_of(paths@).len() == paths@.len());
        }
        for path in walk: paths
            invariant
                dm == device::device_models(devices@),
                all == list_nodes(dm),
                walk.seq() == paths@,
                paths@.len() == all.len(),
                paths_of(paths@) == list_paths(dm, 0),
                forall|k: int|
                    0 <= k < list_paths(dm, 0).len() ==> at_path(dm, #[trigger] list_paths(dm, 0)[k]) == Some(all[k]),
                nodes@.len() == walk.index(),
                keys@ == native_keys(all).take(walk.index()),
                forall|k: int|
                    0 <= k < walk.index() ==> path_of((#[trigger] nodes@[k]).path@) == list_paths(dm, 0)[k]
                        && nodes@[k].chains.of() == positions::long_keys(chain_ids_of(all[k])),
        {
            let ghost k = walk.index();
            proof {
                assert(paths_of(paths@)[k] == path_of(path@));
                assert(at_path(dm, list_paths(dm, 0)[k]) == Some(all[k]));
                assert(path_of(path@).skip(0) =~= path_of(path@));
            }
            let found = self::walk(devices, &path, 0);
            let mut ids: Vec<u128> = Vec::new();
            let mut key: u128 = 0x1_0000_0000_0000_0000;
            if let Some(d) = found {
                assert(d@ == all[k]);
                match d {
                    Device::Native(n) => {
                        key = n.id as u128;
                    },
                    Device::Parallel(p) => {
                        let mut c: usize = 0;
                        while c < p.chains.len()
                            invariant
                                c <= p.chains@.len(),
                                ids@.len() == c,
                                forall|j: int| 0 <= j < c ==> #[trigger] ids@[j] == p.chains@[j].id as u128,
                            decreases p.chains@.len() - c,
                        {
                            ids.push(p.chains[c].id as u128);
                            c += 1;
                        }
                    },
                    Device::Plugin(_) => {},
                }
            }
            proof {
                assert(ids@ =~= positions::long_keys(chain_ids_of(all[k])));
                assert(native_keys(all)[k] == key);
                assert(native_keys(all).take(k + 1) =~= native_keys(all).take(k).push(key));
            }
            let chains = PositionIndex::build(&ids);
            nodes.push(Node { path, chains });
            keys.push(key);
        }
        assert(native_keys(all).take(all.len() as int) =~= native_keys(all));
        ChainNodes { nodes, natives: PositionIndex::build(&keys), of: Ghost(dm) }
    }

    /// How many devices there are.
    fn len(&self) -> (r: usize)
        ensures
            r == list_nodes(self.of()).len(),
    {
        proof {
            use_type_invariant(self);
        }
        self.nodes.len()
    }

    /// The device at the place in a chain where the `k`th one was.
    fn node<'a>(&self, devices: &'a Vec<Device>, k: usize) -> (r: Option<&'a Device>)
        requires
            k < list_nodes(self.of()).len(),
        ensures
            match r {
                Some(d) => at_path(device::device_models(devices@), list_paths(self.of(), 0)[k as int]) == Some(d@),
                None => at_path(device::device_models(devices@), list_paths(self.of(), 0)[k as int]) is None,
            },
    {
        proof {
            use_type_invariant(self);
            assert(path_of(self.nodes@[k as int].path@).skip(0) =~= path_of(self.nodes@[k as int].path@));
        }
        walk(devices, &self.nodes[k].path, 0)
    }

    /// The place of a chain of the device at place `k`.
    fn chain_place(&self, k: usize, chain_id: u64) -> (r: Option<usize>)
        requires
            k < list_nodes(self.of()).len(),
        ensures
            match r {
                Some(c) => positions::place(
                    positions::long_keys(chain_ids_of(list_nodes(self.of())[k as int])),
                    chain_id as u128,
                ) == Some(c as int) && c < chain_ids_of(list_nodes(self.of())[k as int]).len(),
                None => positions::place(
                    positions::long_keys(chain_ids_of(list_nodes(self.of())[k as int])),
                    chain_id as u128,
                ) is None,
            },
    {
        proof {
            use_type_invariant(self);
        }
        self.nodes[k].chains.find(chain_id as u128)
    }

    /// The first native device with id `id`, where it was when the index was made.
    /// None if there is another device now.
    pub fn native<'a>(&self, devices: &'a Vec<Device>, id: u64) -> (r: Option<&'a NativeDevice>)
        ensures
            match r {
                Some(n) => native_at(self.of(), device::device_models(devices@), id) == Some(*n),
                None => native_at(self.of(), device::device_models(devices@), id) is None,
            },
    {
        proof {
            use_type_invariant(self);
        }
        match self.natives.find(id as u128) {
            Some(k) => match self.node(devices, k) {
                Some(Device::Native(n)) => if n.id == id {
                    Some(n)
                } else {
                    None
                },
                _ => None,
            },
            None => None,
        }
    }
}

/// The native device with id `id` of a chain, at the place where the first one was in
/// the chain `known`. None if there is another device now.
pub open spec fn native_at(known: Seq<DeviceModel>, now: Seq<DeviceModel>, id: u64) -> Option<NativeDevice> {
    match positions::place(native_keys(list_nodes(known)), id as u128) {
        Some(k) => match at_path(now, list_paths(known, 0)[k]) {
            Some(DeviceModel::Native(n)) => if n.id == id {
                Some(n)
            } else {
                None
            },
            _ => None,
        },
        None => None,
    }
}

/// A chain that is as it was is searched rightly.
proof fn lemma_native_at(devices: Seq<DeviceModel>, id: u64)
    ensures
        native_at(devices, devices, id) == native_find(devices, id),
{
    let all = list_nodes(devices);
    assert(devices.skip(0) =~= devices);
    lemma_list_paths(devices, 0, devices);
    lemma_native_place(all, id, 0);
    positions::lemma_place_from(native_keys(all), id as u128, 0);
    if let Some(k) = positions::place(native_keys(all), id as u128) {
        assert(at_path(devices, list_paths(devices, 0)[k]) == Some(all[k]));
    }
}

// ---------------------------------------------------------------------------
// The devices of a song
// ---------------------------------------------------------------------------

/// The device chains of a song: those of the tracks, then that of the master.
pub open spec fn song_lists(song: SongModel) -> Seq<Seq<DeviceModel>> {
    song.tracks.map_values(|t: TrackModel| t.devices).push(song.master_fx_chain)
}

/// The devices of several chains, one behind the other.
pub open spec fn lists_nodes(lists: Seq<Seq<DeviceModel>>) -> Seq<DeviceModel>
    decreases lists.len(),
{
    if lists.len() == 0 {
        Seq::empty()
    } else {
        lists_nodes(lists.drop_last()) + list_nodes(lists.last())
    }
}

/// The first device with an id in chains, from chain `from` on.
spec fn lists_find(lists: Seq<Seq<DeviceModel>>, id: u64, from: int) -> Option<DeviceModel>
    decreases lists.len() - from,
{
    if from < 0 || from >= lists.len() {
        None
    } else {
        match lookup::list_find(lists[from], id) {
            Some(d) => Some(d),
            None => lists_find(lists, id, from + 1),
        }
    }
}

proof fn lemma_lists_find_grows(lists: Seq<Seq<DeviceModel>>, id: u64, from: int)
    requires
        lists.len() > 0,
        0 <= from < lists.len(),
    ensures
        lists_find(lists, id, from) == (match lists_find(lists.drop_last(), id, from) {
            Some(d) => Some(d),
            None => lookup::list_find(lists.last(), id),
        }),
    decreases lists.len() - from,
{
    let front = lists.drop_last();
    if from < front.len() {
        assert(front[from] == lists[from]);
        lemma_lists_find_grows(lists, id, from + 1);
    } else {
        assert(lists_find(lists, id, from + 1) is None);
    }
}

proof fn lemma_lists_find(lists: Seq<Seq<DeviceModel>>, id: u64)
    ensures
        lists_find(lists, id, 0) == node_from(lists_nodes(lists), id, 0),
    decreases lists.len(),
{
    if lists.len() > 0 {
        lemma_lists_find(lists.drop_last(), id);
        lemma_lists_find_grows(lists, id, 0);
        lemma_list_find(lists.last(), id);
        lemma_node_add(lists_nodes(lists.drop_last()), list_nodes(lists.last()), id, 0);
    }
}

proof fn lemma_tracks_find(song: SongModel, id: u64, from: int)
    requires
        0 <= from <= song.tracks.len(),
    ensures
        lists_find(song_lists(song), id, from) == (match lookup::tracks_find(song.tracks, id, from) {
            Some(found) => Some(found.1),
            None => lookup::list_find(song.master_fx_chain, id),
        }),
    decreases song.tracks.len() - from,
{
    let lists = song_lists(song);
    if from < song.tracks.len() {
        assert(lists[from] == song.tracks[from].devices);
        lemma_tracks_find(song, id, from + 1);
    } else {
        assert(lists[from] == song.master_fx_chain);
        assert(lists_find(lists, id, from + 1) is None);
    }
}

/// Searching a song for a device is searching its devices in order.
proof fn lemma_song_device(song: SongModel, id: u64)
    ensures
        song.device(id) == node_from(lists_nodes(song_lists(song)), id, 0),
{
    lemma_tracks_find(song, id, 0);
    lemma_lists_find(song_lists(song), id);
}

/// The devices of a song, by id.
pub struct NodeIndex {
    /// The chains of the tracks, then that of the master.
    lists: Vec<ChainNodes>,
    /// The chain and the place in it of each device.
    all: Vec<(usize, usize)>,
    by_id: PositionIndex,
    of: Ghost<Seq<Seq<DeviceModel>>>,
}

/// The chain and the place in it of each device of several chains.
pub open spec fn lists_places(lists: Seq<Seq<DeviceModel>>) -> Seq<(int, int)>
    decreases lists.len(),
{
    if lists.len() == 0 {
        Seq::empty()
    } else {
        lists_places(lists.drop_last()) + Seq::new(list_nodes(lists.last()).len(), |k: int| (lists.len() - 1, k))
    }
}

/// Whether a place in a chain is that of a device.
spec fn locates(lists: Seq<Seq<DeviceModel>>, at: (int, int), d: DeviceModel) -> bool {
    0 <= at.0 < lists.len() && 0 <= at.1 < list_nodes(lists[at.0]).len() && list_nodes(lists[at.0])[at.1] == d
}

proof fn lemma_lists_places(lists: Seq<Seq<DeviceModel>>)
    ensures
        lists_places(lists).len() == lists_nodes(lists).len(),
        forall|g: int|
            0 <= g < lists_nodes(lists).len() ==> locates(lists, #[trigger] lists_places(lists)[g], lists_nodes(lists)[g]),
    decreases lists.len(),
{
    if lists.len() > 0 {
        let front = lists.drop_last();
        lemma_lists_places(front);
        assert forall|g: int| 0 <= g < lists_nodes(lists).len() implies locates(
            lists,
            #[trigger] lists_places(lists)[g],
            lists_nodes(lists)[g],
        ) by {
            if g < lists_nodes(front).len() {
                assert(locates(front, lists_places(front)[g], lists_nodes(front)[g]));
                assert(front[lists_places(front)[g].0] == lists[lists_places(front)[g].0]);
            }
        }
    }
}

/// The device of a song at the place where that of an index was: the chain is that of
/// the track at the same place, or that of the master.
pub open spec fn device_at(known: Seq<Seq<DeviceModel>>, song: SongModel, at: (int, int)) -> Option<DeviceModel> {
    let path = list_paths(known[at.0], 0)[at.1];
    if at.0 == known.len() - 1 {
        at_path(song.master_fx_chain, path)
    } else if at.0 < song.tracks.len() {
        at_path(song.tracks[at.0].devices, path)
    } else {
        None
    }
}

/// The device with id `id` of a song, at the place where the first one was among the
/// chains `known`. None if there is another device now.
pub open spec fn found_device(known: Seq<Seq<DeviceModel>>, song: SongModel, id: u64) -> Option<DeviceModel> {
    match positions::place(positions::long_keys(node_ids(lists_nodes(known))), id as u128) {
        Some(g) => match device_at(known, song, lists_places(known)[g]) {
            Some(d) => if d.id() == id {
                Some(d)
            } else {
                None
            },
            None => None,
        },
        None => None,
    }
}

/// The chain with id `chain_id` of the rack with id `parallel_id`, at the place where the
/// first one was among the chains `known`. None if there is another chain, or another
/// device, now.
pub open spec fn found_chain(known: Seq<Seq<DeviceModel>>, song: SongModel, parallel_id: u64, chain_id: u64) -> Option<
    ChainModel,
> {
    match found_device(known, song, parallel_id) {
        Some(DeviceModel::Parallel { id: _, chains }) => {
            let was = lists_nodes(known)[positions::place(
                positions::long_keys(node_ids(lists_nodes(known))),
                parallel_id as u128,
            )->0];
            match positions::place(positions::long_keys(chain_ids_of(was)), chain_id as u128) {
                Some(c) => if c < chains.len() && chains[c].id == chain_id {
                    Some(chains[c])
                } else {
                    None
                },
                None => None,
            }
        },
        _ => None,
    }
}

/// The native device with id `id` of the chain of the track at place `track`, or of that
/// of the master if there is no track, as [`native_at`] finds it.
pub open spec fn found_native(known: Seq<Seq<DeviceModel>>, song: SongModel, track: Option<usize>, id: u64) -> Option<
    NativeDevice,
> {
    match track {
        Some(i) => if i < known.len() - 1 && i < song.tracks.len() {
            native_at(known[i as int], song.tracks[i as int].devices, id)
        } else {
            None
        },
        None => native_at(known.last(), song.master_fx_chain, id),
    }
}

/// In the song that the chains are those of, what is found is what a search from the
/// front finds.
proof fn lemma_found(song: SongModel, id: u64, chain_id: u64)
    ensures
        found_device(song_lists(song), song, id) == song.device(id),
        found_chain(song_lists(song), song, id, chain_id) == song.chain_in(id, chain_id),
{
    let lists = song_lists(song);
    let all = lists_nodes(lists);
    let keys = positions::long_keys(node_ids(all));
    lemma_song_device(song, id);
    lemma_lists_places(lists);
    lemma_node_place(all, id, 0);
    positions::lemma_place_from(keys, id as u128, 0);
    if let Some(g) = positions::place(keys, id as u128) {
        let at = lists_places(lists)[g];
        assert(locates(lists, at, all[g]));
        let list = lists[at.0];
        assert(list.skip(0) =~= list);
        lemma_list_paths(list, 0, list);
        assert(at_path(list, list_paths(list, 0)[at.1]) == Some(all[g]));
        assert(device_at(lists, song, at) == Some(all[g]));
        assert(keys[g] == id as u128);
        assert(all[g].id() == id);
        if let DeviceModel::Parallel { id: _, chains } = all[g] {
            let ids = chain_ids_of(all[g]);
            lemma_chain_place(chains, ids, chain_id, 0);
            positions::lemma_place_from(positions::long_keys(ids), chain_id as u128, 0);
            if let Some(c) = positions::place(positions::long_keys(ids), chain_id as u128) {
                assert(positions::long_keys(ids)[c] == chain_id as u128);
                assert(ids[c] == chains[c].id);
            }
        }
    }
}

proof fn lemma_found_native(song: SongModel, track: Option<usize>, id: u64)
    ensures
        found_native(song_lists(song), song, track, id) == song.native_in(track, id),
{
    let lists = song_lists(song);
    match track {
        Some(i) => {
            if i < song.tracks.len() {
                assert(lists[i as int] == song.tracks[i as int].devices);
                lemma_native_at(lists[i as int], id);
            }
        },
        None => {
            assert(lists.last() == song.master_fx_chain);
            lemma_native_at(lists.last(), id);
        },
    }
}

/// Whether places are those of the devices of chains.
spec fn places_all(all: Seq<(usize, usize)>, lists: Seq<Seq<DeviceModel>>) -> bool {
    all.map_values(|a: (usize, usize)| (a.0 as int, a.1 as int)) == lists_places(lists)
}

/// Adds a chain to an index in the making.
fn add_list(
    devices: &Vec<Device>,
    lists: &mut Vec<ChainNodes>,
    all: &mut Vec<(usize, usize)>,
    ids: &mut Vec<u128>,
    Ghost(models): Ghost<Seq<Seq<DeviceModel>>>,
)
    requires
        old(lists)@.len() == models.len(),
        forall|i: int| 0 <= i < models.len() ==> (#[trigger] old(lists)@[i]).of() == models[i],
        places_all(old(all)@, models),
        old(ids)@ == positions::long_keys(node_ids(lists_nodes(models))),
    ensures
        ({
            let now = models.push(device::device_models(devices@));
            &&& final(lists)@.len() == now.len()
            &&& forall|i: int| 0 <= i < now.len() ==> (#[trigger] final(lists)@[i]).of() == now[i]
            &&& places_all(final(all)@, now)
            &&& final(ids)@ == positions::long_keys(node_ids(lists_nodes(now)))
        }),
{
    let ghost dm = device::device_models(devices@);
    let ghost now = models.push(dm);
    let ghost before = lists_nodes(models);
    let ghost more = list_nodes(dm);
    let ghost was = lists_places(models);
    let chain = ChainNodes::build(devices);
    let owner: usize = lists.len();
    let n: usize = chain.len();
    let ghost new = Seq::new(more.len(), |k: int| (owner as int, k));
    proof {
        assert(now.drop_last() =~= models);
        assert(lists_nodes(now) == before + more);
        assert(lists_places(now) =~= was + new);
        assert((before + more).take(before.len() as int) =~= before);
        assert(dm.skip(0) =~= dm);
        lemma_list_paths(dm, 0, dm);
        assert(was + new.take(0) =~= was);
    }
    let mut k: usize = 0;
    while k < n
        invariant
            n == more.len(),
            more == list_nodes(dm),
            dm == device::device_models(devices@),
            chain.of() == dm,
            forall|k: int| 0 <= k < list_paths(dm, 0).len() ==> at_path(dm, #[trigger] list_paths(dm, 0)[k]) == Some(more[k]),
            list_paths(dm, 0).len() == more.len(),
            k <= n,
            new == Seq::new(more.len(), |k: int| (owner as int, k)),
            all@.map_values(|a: (usize, usize)| (a.0 as int, a.1 as int)) == was + new.take(k as int),
            ids@ == positions::long_keys(node_ids((before + more).take(before.len() + k))),
        decreases n - k,
    {
        let ghost g = before.len() + k;
        let ghost then = all@.map_values(|a: (usize, usize)| (a.0 as int, a.1 as int));
        if let Some(d) = chain.node(devices, k) {
            assert((before + more)[g] == d@);
            ids.push(d.id() as u128);
            all.push((owner, k));
            proof {
                let a = (before + more).take(g);
                let b = (before + more).take(g + 1);
                assert(b =~= a.push(d@));
                assert(ids@ =~= positions::long_keys(node_ids(b)));
                assert(all@.map_values(|a: (usize, usize)| (a.0 as int, a.1 as int)) =~= then.push(
                    (owner as int, k as int),
                ));
                assert(new.take(k + 1) =~= new.take(k as int).push((owner as int, k as int)));
                assert(was + new.take(k + 1) =~= (was + new.take(k as int)).push((owner as int, k as int)));
            }
        }
        k += 1;
    }
    proof {
        assert((before + more).take(before.len() + k) =~= before + more);
        assert(new.take(k as int) =~= new);
    }
    lists.push(chain);
}

impl NodeIndex {
    /// The chains that this is the index of.
    pub closed spec fn of(self) -> Seq<Seq<DeviceModel>> {
        self.of@
    }

    #[verifier::type_invariant]
    spec fn inv(self) -> bool {
        &&& self.of@.len() > 0
        &&& self.lists@.len() == self.of@.len()
        &&& forall|i: int| 0 <= i < self.of@.len() ==> (#[trigger] self.lists@[i]).of() == self.of@[i]
        &&& places_all(self.all@, self.of@)
        &&& self.by_id.of() == positions::long_keys(node_ids(lists_nodes(self.of@)))
    }

    /// The index of a song.
    pub fn build(song: &Song) -> (r: NodeIndex)
        ensures
            r.of() == song_lists(song@),
    {
        let ghost want = song_lists(song@);
        let mut lists: Vec<ChainNodes> = Vec::new();
        let mut all: Vec<(usize, usize)> = Vec::new();
        let mut ids: Vec<u128> = Vec::new();
        let mut i: usize = 0;
        proof {
            assert(want.take(0) =~= Seq::<Seq<DeviceModel>>::empty());
            assert(ids@ =~= positions::long_keys(node_ids(lists_nodes(want.take(0)))));
            assert(all@.map_values(|a: (usize, usize)| (a.0 as int, a.1 as int)) =~= lists_places(want.take(0)));
        }
        while i < song.tracks.len()
            invariant
                want == song_lists(song@),
                i <= song.tracks@.len(),
                lists@.len() == i,
                forall|k: int| 0 <= k < i ==> (#[trigger] lists@[k]).of() == want.take(i as int)[k],
                places_all(all@, want.take(i as int)),
                ids@ == positions::long_keys(node_ids(lists_nodes(want.take(i as int)))),
            decreases song.tracks@.len() - i,
        {
            assert(song@.tracks[i as int] == song.tracks@[i as int]@);
            assert(want[i as int] == song@.tracks[i as int].devices);
            assert(want.take(i + 1) =~= want.take(i as int).push(want[i as int]));
            add_list(&song.tracks[i].devices, &mut lists, &mut all, &mut ids, Ghost(want.take(i as int)));
            i += 1;
        }
        assert(want.take(i as int).push(song@.master_fx_chain) =~= want);
        add_list(&song.master_fx_chain, &mut lists, &mut all, &mut ids, Ghost(want.take(i as int)));
        NodeIndex { lists, all, by_id: PositionIndex::build(&ids), of: Ghost(want) }
    }

    /// The first device with id `id`, as a place among all devices.
    fn find(&self, id: u64) -> (r: Option<usize>)
        ensures
            match r {
                Some(g) => g < lists_nodes(self.of()).len() && positions::place(
                    positions::long_keys(node_ids(lists_nodes(self.of()))),
                    id as u128,
                ) == Some(g as int),
                None => positions::place(
                    positions::long_keys(node_ids(lists_nodes(self.of()))),
                    id as u128,
                ) is None,
            },
    {
        proof {
            use_type_invariant(self);
        }
        self.by_id.find(id as u128)
    }

    /// The device at the place where the `g`th of all devices was.
    fn node<'a>(&self, song: &'a Song, g: usize) -> (r: Option<&'a Device>)
        requires
            g < lists_nodes(self.of()).len(),
        ensures
            match r {
                Some(d) => device_at(self.of(), song@, lists_places(self.of())[g as int]) == Some(d@),
                None => device_at(self.of(), song@, lists_places(self.of())[g as int]) is None,
            },
    {
        proof {
            use_type_invariant(self);
            lemma_lists_places(self.of@);
            assert(locates(self.of@, lists_places(self.of@)[g as int], lists_nodes(self.of@)[g as int]));
            let all = self.all@.map_values(|a: (usize, usize)| (a.0 as int, a.1 as int));
            assert(all.len() == self.all@.len());
            assert(all[g as int] == (self.all@[g as int].0 as int, self.all@[g as int].1 as int));
        }
        let (owner, k) = self.all[g];
        if owner == self.lists.len() - 1 {
            self.lists[owner].node(&song.master_fx_chain, k)
        } else if owner < song.tracks.len() {
            assert(song@.tracks[owner as int] == song.tracks@[owner as int]@);
            self.lists[owner].node(&song.tracks[owner].devices, k)
        } else {
            None
        }
    }

    /// The first device with id `id`, as [`Song::device_by_id`] finds it in the song that
    /// this is the index of. In another song, the device at its place, if it has the id.
    pub fn device<'a>(&self, song: &'a Song, id: u64) -> (r: Option<&'a Device>)
        ensures
            found_device(self.of(), song@, id) == match r {
                Some(d) => Some(d@),
                None => None,
            },
            self.of() == song_lists(song@) ==> found_device(self.of(), song@, id) == song@.device(id),
    {
        proof {
            if self.of() == song_lists(song@) {
                lemma_found(song@, id, 0);
            }
        }
        match self.find(id) {
            Some(g) => match self.node(song, g) {
                Some(d) => if d.id() == id {
                    Some(d)
                } else {
                    None
                },
                None => None,
            },
            None => None,
        }
    }

    /// The chain with id `chain_id` of the rack with id `parallel_id`. In another song
    /// than that of the index, the chain at its place, if both have these ids.
    pub fn chain_in<'a>(&self, song: &'a Song, parallel_id: u64, chain_id: u64) -> (r: Option<&'a ParallelChain>)
        ensures
            found_chain(self.of(), song@, parallel_id, chain_id) == match r {
                Some(c) => Some(c@),
                None => None,
            },
            self.of() == song_lists(song@) ==> found_chain(self.of(), song@, parallel_id, chain_id) == song@.chain_in(
                parallel_id,
                chain_id,
            ),
    {
        proof {
            use_type_invariant(self);
            if self.of() == song_lists(song@) {
                lemma_found(song@, parallel_id, chain_id);
            }
        }
        let g: usize = match self.find(parallel_id) {
            Some(g) => g,
            None => {
                return None;
            },
        };
        proof {
            lemma_lists_places(self.of@);
            assert(locates(self.of@, lists_places(self.of@)[g as int], lists_nodes(self.of@)[g as int]));
            let all = self.all@.map_values(|a: (usize, usize)| (a.0 as int, a.1 as int));
            assert(all.len() == self.all@.len());
            assert(all[g as int] == (self.all@[g as int].0 as int, self.all@[g as int].1 as int));
        }
        let (owner, k) = self.all[g];
        match self.node(song, g) {
            Some(Device::Parallel(p)) => {
                if p.id != parallel_id {
                    return None;
                }
                match self.lists[owner].chain_place(k, chain_id) {
                    Some(c) => if c < p.chains.len() && p.chains[c].id == chain_id {
                        assert(device::chain_models(p.chains@)[c as int] == device::chain_model(p.chains@[c as int]));
                        Some(&p.chains[c])
                    } else {
                        None
                    },
                    None => None,
                }
            },
            _ => None,
        }
    }

    /// The first native device with id `id` in the chain of the track at place
    /// `track`, or in that of the master if there is no track. In another song than that
    /// of the index, the one at its place, if it has the id.
    pub fn native_in<'a>(&self, song: &'a Song, track: Option<usize>, id: u64) -> (r: Option<&'a NativeDevice>)
        ensures
            found_native(self.of(), song@, track, id) == match r {
                Some(n) => Some(*n),
                None => None,
            },
            self.of() == song_lists(song@) ==> found_native(self.of(), song@, track, id) == song@.native_in(track, id),
    {
        proof {
            use_type_invariant(self);
            if self.of() == song_lists(song@) {
                lemma_found_native(song@, track, id);
            }
        }
        match track {
            Some(i) => {
                if i >= self.lists.len() - 1 || i >= song.tracks.len() {
                    return None;
                }
                assert(song@.tracks[i as int] == song.tracks@[i as int]@);
                self.lists[i].native(&song.tracks[i].devices, id)
            },
            None => self.lists[self.lists.len() - 1].native(&song.master_fx_chain, id),
        }
    }
}

impl SongModel {
    /// The first native device with id `id` in the chain of the track at place
    /// `track`, or in that of the master if there is no track.
    pub open spec fn native_in(self, track: Option<usize>, id: u64) -> Option<NativeDevice> {
        match track {
            Some(i) => if i < self.tracks.len() {
                native_find(self.tracks[i as int].devices, id)
            } else {
                None
            },
            None => native_find(self.master_fx_chain, id),
        }
    }
}

} // verus!
