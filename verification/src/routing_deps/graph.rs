//! The dependency graph of the tracks.

use super::consumers;
use super::consumers::{aux_consumers, AuxConsumer, ConsumerModel};
use crate::model;
use crate::model::device;
use crate::model::{
    AuxInputRoute, ChainModel, Device, DeviceModel, ParallelChain, Send, Song, SongModel, TapSource, TrackModel,
};
use std::collections::HashMap;
use vstd::prelude::*;

verus! {

/// Which wiring counts as an edge.
#[derive(Clone, Copy, Debug, PartialEq, Eq, Structural)]
pub enum EdgeScope {
    /// Only consumers that can be processed now: the order the engine runs in.
    Active,
    /// Every wired consumer: what a guard has to look at, since a bypassed
    /// device may be switched on later.
    Wired,
}

/// The dependency graph has a cycle.
#[derive(Clone, Copy, Debug, PartialEq, Eq, Structural)]
pub struct DependencyCycle;

// ---------------------------------------------------------------------------
// The edges of a song
// ---------------------------------------------------------------------------

/// The ids of the tracks, in song order.
pub open spec fn track_ids(tracks: Seq<TrackModel>) -> Seq<u32> {
    Seq::new(tracks.len(), |i: int| tracks[i].id)
}

/// The place of the track with id `id`: the last one, if several share it. An
/// id of zero is not assigned and finds nothing.
pub open spec fn id_index(ids: Seq<u32>, id: u32) -> Option<int>
    decreases ids.len(),
{
    if ids.len() == 0 {
        None
    } else if id != 0 && ids.last() == id {
        Some(ids.len() - 1)
    } else {
        id_index(ids.drop_last(), id)
    }
}

/// The ids of the chains inside one device.
pub open spec fn device_chain_ids(d: DeviceModel) -> Seq<u64>
    decreases d,
{
    match d {
        DeviceModel::Parallel { id, chains } => chains_chain_ids(chains),
        _ => Seq::empty(),
    }
}

/// The ids of the chains of a rack and of the racks inside them.
pub open spec fn chains_chain_ids(chains: Seq<ChainModel>) -> Seq<u64>
    decreases chains,
{
    if chains.len() == 0 {
        Seq::empty()
    } else {
        chains_chain_ids(chains.drop_last()).push(chains.last().id) + chain_ids(chains.last().devices)
    }
}

/// The ids of every chain inside a device chain.
pub open spec fn chain_ids(devices: Seq<DeviceModel>) -> Seq<u64>
    decreases devices,
{
    if devices.len() == 0 {
        Seq::empty()
    } else {
        chain_ids(devices.drop_last()) + device_chain_ids(devices.last())
    }
}

/// The place of the track that holds the chain `chain`: the last one, if
/// several do.
pub open spec fn chain_owner(tracks: Seq<TrackModel>, chain: u64) -> Option<int>
    decreases tracks.len(),
{
    if tracks.len() == 0 {
        None
    } else if chain_ids(tracks.last().devices).contains(chain) {
        Some(tracks.len() - 1)
    } else {
        chain_owner(tracks.drop_last(), chain)
    }
}

/// The place of the track that a tap reads.
pub open spec fn source_track(tracks: Seq<TrackModel>, source: TapSource) -> Option<int> {
    match source {
        TapSource::Track(id) => id_index(track_ids(tracks), id),
        TapSource::Chain(chain) => chain_owner(tracks, chain),
    }
}

/// The children of the track at place `g` among the first `n` tracks.
pub open spec fn children(tracks: Seq<TrackModel>, g: int, n: nat) -> Seq<int>
    decreases n,
{
    if n == 0 {
        Seq::empty()
    } else {
        let before = children(tracks, g, (n - 1) as nat);
        match tracks[n - 1].parent_group_id {
            Some(parent) => if id_index(track_ids(tracks), parent) == Some(g) {
                before.push(n - 1)
            } else {
                before
            },
            None => before,
        }
    }
}

/// The tracks other than the one at place `i` that `routes` read.
pub open spec fn route_sources(tracks: Seq<TrackModel>, i: int, routes: Seq<Option<AuxInputRoute>>) -> Seq<int>
    decreases routes.len(),
{
    if routes.len() == 0 {
        Seq::empty()
    } else {
        let before = route_sources(tracks, i, routes.drop_last());
        match routes.last() {
            Some(route) => match source_track(tracks, route.tap.source) {
                Some(s) => if s != i {
                    before.push(s)
                } else {
                    before
                },
                None => before,
            },
            None => before,
        }
    }
}

/// The tracks other than the one at place `i` that the consumers `cs` read.
pub open spec fn consumer_sources(
    tracks: Seq<TrackModel>,
    i: int,
    cs: Seq<ConsumerModel>,
    scope: EdgeScope,
) -> Seq<int>
    decreases cs.len(),
{
    if cs.len() == 0 {
        Seq::empty()
    } else {
        let before = consumer_sources(tracks, i, cs.drop_last(), scope);
        if scope == EdgeScope::Active && cs.last().inactive {
            before
        } else {
            before + route_sources(tracks, i, cs.last().routes)
        }
    }
}

/// The consumers on a track.
pub open spec fn track_consumers(t: TrackModel) -> Seq<ConsumerModel> {
    consumers::consumers(t.devices, t.automation_lanes, t.mod_routings)
}

/// One entry `src` for each of `sends` that goes to the track at place `dest`.
pub open spec fn send_edges(ids: Seq<u32>, dest: int, src: int, sends: Seq<Send>) -> Seq<int>
    decreases sends.len(),
{
    if sends.len() == 0 {
        Seq::empty()
    } else {
        let before = send_edges(ids, dest, src, sends.drop_last());
        if id_index(ids, sends.last().dest_track_id) == Some(dest) {
            before.push(src)
        } else {
            before
        }
    }
}

/// The sources of the sends into the track at place `dest`, from the first `n`
/// tracks.
pub open spec fn send_sources(tracks: Seq<TrackModel>, dest: int, n: nat) -> Seq<int>
    decreases n,
{
    if n == 0 {
        Seq::empty()
    } else {
        send_sources(tracks, dest, (n - 1) as nat) + send_edges(track_ids(tracks), dest, n - 1, tracks[n - 1].sends)
    }
}

/// What the track at place `i` depends on: its children, then what its side
/// chains read, then the sources of the sends into it.
pub open spec fn track_edges(tracks: Seq<TrackModel>, scope: EdgeScope, i: int) -> Seq<int> {
    children(tracks, i, tracks.len()) + consumer_sources(tracks, i, track_consumers(tracks[i]), scope) + send_sources(
        tracks,
        i,
        tracks.len(),
    )
}

/// The dependency graph of the tracks.
pub open spec fn song_graph(tracks: Seq<TrackModel>, scope: EdgeScope) -> Seq<Seq<int>> {
    Seq::new(tracks.len(), |i: int| track_edges(tracks, scope, i))
}

// ---------------------------------------------------------------------------
// Graphs, walks and cycles
// ---------------------------------------------------------------------------

/// Every edge ends at a node.
pub open spec fn graph_ok(g: Seq<Seq<int>>) -> bool {
    forall|i: int, k: int|
        0 <= i < g.len() && 0 <= k < g[i].len() ==> 0 <= #[trigger] g[i][k] < g.len()
}

/// `walk` follows edges of `g`.
pub open spec fn is_walk(g: Seq<Seq<int>>, walk: Seq<int>) -> bool {
    &&& walk.len() > 0
    &&& forall|i: int| 0 <= i < walk.len() ==> 0 <= #[trigger] walk[i] < g.len()
    &&& forall|i: int| #![trigger walk[i]] 0 <= i < walk.len() - 1 ==> g[walk[i]].contains(walk[i + 1])
}

/// `a` depends on `b`, directly or not, or is `b`.
pub open spec fn reaches(g: Seq<Seq<int>>, a: int, b: int) -> bool {
    exists|walk: Seq<int>| #[trigger] is_walk(g, walk) && walk[0] == a && walk.last() == b
}

/// Some node depends on itself.
pub open spec fn has_cycle(g: Seq<Seq<int>>) -> bool {
    exists|walk: Seq<int>| #[trigger] is_walk(g, walk) && walk.len() >= 2 && walk[0] == walk.last()
}

// ---------------------------------------------------------------------------
// Depth-first order
// ---------------------------------------------------------------------------

/// Finishes node `v`, whose first `k` edges are done: `path` leads to `v`,
/// `done` are the finished nodes. None if an edge leads back into the path.
pub open spec fn finish(g: Seq<Seq<int>>, v: int, k: nat, path: Seq<int>, done: Seq<int>) -> Option<Seq<int>>
    decreases g.len() + 1 - path.len(), 1 + g[v].len() - k,
{
    if k >= g[v].len() {
        Some(done.push(v))
    } else {
        match visit(g, g[v][k as int], path, done) {
            Some(d) => finish(g, v, k + 1, path, d),
            None => None,
        }
    }
}

/// Visits node `v` in depth-first order after the nodes of `path`.
pub open spec fn visit(g: Seq<Seq<int>>, v: int, path: Seq<int>, done: Seq<int>) -> Option<Seq<int>>
    decreases g.len() + 1 - path.len(), 0int,
{
    if done.contains(v) {
        Some(done)
    } else if path.contains(v) || path.len() >= g.len() {
        None
    } else {
        finish(g, v, 0, path.push(v), done)
    }
}

/// Visits the nodes from `start` on.
pub open spec fn order_from(g: Seq<Seq<int>>, start: int, done: Seq<int>) -> Option<Seq<int>>
    decreases g.len() - start,
{
    if start >= g.len() {
        Some(done)
    } else {
        match visit(g, start, Seq::empty(), done) {
            Some(d) => order_from(g, start + 1, d),
            None => None,
        }
    }
}

/// The depth-first post-order of the graph: nodes are started in their order,
/// edges are followed in theirs. None if there is a cycle.
pub open spec fn post_order(g: Seq<Seq<int>>) -> Option<Seq<int>> {
    order_from(g, 0, Seq::empty())
}

/// All elements are below `n`, and none occurs twice.
pub open spec fn distinct_below(s: Seq<int>, n: int) -> bool {
    &&& s.no_duplicates()
    &&& forall|i: int| 0 <= i < s.len() ==> 0 <= #[trigger] s[i] < n
}

/// There are at most `n` distinct numbers below `n`.
pub proof fn lemma_distinct_len(s: Seq<int>, n: int)
    requires
        distinct_below(s, n),
        n >= 0,
    ensures
        s.len() <= n,
{
    s.unique_seq_to_set();
    let all = vstd::set_lib::set_int_range(0, n);
    vstd::set_lib::lemma_int_range(0, n);
    assert(s.to_set().subset_of(all)) by {
        assert forall|x: int| s.to_set().contains(x) implies all.contains(x) by {
            let i = choose|i: int| 0 <= i < s.len() && s[i] == x;
            assert(0 <= s[i] < n);
        }
    }
    vstd::set_lib::lemma_len_subset(s.to_set(), all);
}

// ---------------------------------------------------------------------------
// Laws of the order
// ---------------------------------------------------------------------------

/// Every finished node comes after what it depends on.
pub open spec fn topological(g: Seq<Seq<int>>, order: Seq<int>) -> bool {
    forall|i: int, k: int|
        #![trigger order[i], g[order[i]][k]]
        0 <= i < order.len() && 0 <= k < g[order[i]].len() ==> order.take(i).contains(g[order[i]][k])
}

/// What visiting adds: the old nodes stay in front, the order stays topological.
spec fn extends(g: Seq<Seq<int>>, path: Seq<int>, done: Seq<int>, d: Seq<int>) -> bool {
    &&& done.len() <= d.len()
    &&& d.take(done.len() as int) == done
    &&& topological(g, d)
    &&& distinct_below(d, g.len() as int)
    &&& forall|i: int| done.len() <= i < d.len() ==> !path.contains(#[trigger] d[i])
}

/// The path leads along edges to its last node, without meeting a finished one.
spec fn open_path(g: Seq<Seq<int>>, path: Seq<int>, done: Seq<int>) -> bool {
    &&& distinct_below(path, g.len() as int)
    &&& forall|i: int| 0 <= i < path.len() ==> !done.contains(#[trigger] path[i])
    &&& forall|i: int| #![trigger path[i]] 0 <= i < path.len() - 1 ==> g[path[i]].contains(path[i + 1])
}

proof fn lemma_topological_push(g: Seq<Seq<int>>, d: Seq<int>, v: int)
    requires
        topological(g, d),
        0 <= v < g.len(),
        forall|k: int| 0 <= k < g[v].len() ==> d.contains(#[trigger] g[v][k]),
    ensures
        topological(g, d.push(v)),
{
    let e = d.push(v);
    assert forall|i: int, k: int|
        #![trigger e[i], g[e[i]][k]]
        0 <= i < e.len() && 0 <= k < g[e[i]].len() implies e.take(i).contains(g[e[i]][k]) by {
        if i < d.len() {
            assert(e[i] == d[i]);
            assert(d.take(i).contains(g[d[i]][k]));
            assert(e.take(i) =~= d.take(i));
        } else {
            assert(e.take(i) =~= d);
        }
    }
}

proof fn lemma_finish(g: Seq<Seq<int>>, v: int, k: nat, path: Seq<int>, done: Seq<int>)
    requires
        graph_ok(g),
        path.len() > 0,
        path.last() == v,
        open_path(g, path, done),
        topological(g, done),
        distinct_below(done, g.len() as int),
        forall|j: int| 0 <= j < k && j < g[v].len() ==> done.contains(#[trigger] g[v][j]),
    ensures
        match finish(g, v, k, path, done) {
            Some(d) => extends(g, path.drop_last(), done, d) && d.contains(v),
            None => has_cycle(g),
        },
    decreases g.len() + 1 - path.len(), 1 + g[v].len() - k,
{
    lemma_distinct_len(path, g.len() as int);
    if k >= g[v].len() {
        let d = done.push(v);
        assert(path[path.len() - 1] == v);
        assert(!done.contains(v));
        lemma_topological_push(g, done, v);
        assert(d.take(done.len() as int) =~= done);
        assert(distinct_below(d, g.len() as int));
        assert forall|i: int| done.len() <= i < d.len() implies !path.drop_last().contains(#[trigger] d[i]) by {
            if path.drop_last().contains(v) {
                let j = choose|j: int| 0 <= j < path.drop_last().len() && path.drop_last()[j] == v;
                assert(path[j] == path[path.len() - 1]);
            }
        }
        assert(d[done.len() as int] == v);
    } else {
        let t = g[v][k as int];
        assert(0 <= t < g.len());
        lemma_visit(g, t, path, done);
        match visit(g, t, path, done) {
            Some(d) => {
                assert forall|i: int| 0 <= i < path.len() implies !d.contains(#[trigger] path[i]) by {
                    if d.contains(path[i]) {
                        let j = choose|j: int| 0 <= j < d.len() && d[j] == path[i];
                        if j < done.len() {
                            assert(d.take(done.len() as int)[j] == d[j]);
                            assert(done.contains(path[i]));
                        } else {
                            assert(path.contains(d[j]));
                        }
                    }
                }
                assert forall|j: int| 0 <= j < k + 1 && j < g[v].len() implies d.contains(#[trigger] g[v][j]) by {
                    if j < k {
                        assert(done.contains(g[v][j]));
                        let q = choose|q: int| 0 <= q < done.len() && done[q] == g[v][j];
                        assert(d.take(done.len() as int)[q] == done[q]);
                        assert(d[q] == g[v][j]);
                    }
                }
                lemma_finish(g, v, k + 1, path, d);
                match finish(g, v, k + 1, path, d) {
                    Some(e) => {
                        assert(e.take(done.len() as int) =~= done) by {
                            assert forall|i: int| 0 <= i < done.len() implies e[i] == done[i] by {
                                assert(e.take(d.len() as int)[i] == d[i]);
                                assert(d.take(done.len() as int)[i] == done[i]);
                            }
                        }
                        assert forall|i: int| done.len() <= i < e.len() implies !path.drop_last().contains(
                            #[trigger] e[i],
                        ) by {
                            if i < d.len() {
                                assert(e.take(d.len() as int)[i] == d[i]);
                                assert(!path.contains(d[i]));
                                if path.drop_last().contains(e[i]) {
                                    let j = choose|j: int| 0 <= j < path.drop_last().len() && path.drop_last()[j] == e[i];
                                    assert(path[j] == d[i]);
                                }
                            }
                        }
                    },
                    None => {},
                }
            },
            None => {},
        }
    }
}

proof fn lemma_visit(g: Seq<Seq<int>>, v: int, path: Seq<int>, done: Seq<int>)
    requires
        graph_ok(g),
        0 <= v < g.len(),
        open_path(g, path, done),
        path.len() > 0 ==> g[path.last()].contains(v),
        topological(g, done),
        distinct_below(done, g.len() as int),
    ensures
        match visit(g, v, path, done) {
            Some(d) => extends(g, path, done, d) && d.contains(v),
            None => has_cycle(g),
        },
    decreases g.len() + 1 - path.len(), 0int,
{
    lemma_distinct_len(path, g.len() as int);
    if done.contains(v) {
        assert(done.take(done.len() as int) =~= done);
    } else if path.contains(v) {
        let i = choose|i: int| 0 <= i < path.len() && path[i] == v;
        let walk = path.skip(i).push(v);
        assert(walk[0] == v && walk.last() == v);
        assert forall|j: int| #![trigger walk[j]] 0 <= j < walk.len() - 1 implies g[walk[j]].contains(walk[j + 1]) by {
            assert(walk[j] == path[i + j]);
            if j + 1 < walk.len() - 1 {
                assert(walk[j + 1] == path[i + j + 1]);
            } else {
                assert(walk[j] == path.last());
            }
        }
        assert(is_walk(g, walk));
    } else {
        assert(distinct_below(path.push(v), g.len() as int));
        lemma_distinct_len(path.push(v), g.len() as int);
        let longer = path.push(v);
        assert(open_path(g, longer, done)) by {
            assert forall|i: int| #![trigger longer[i]] 0 <= i < longer.len() - 1 implies g[longer[i]].contains(
                longer[i + 1],
            ) by {
                assert(longer[i] == path[i]);
                if i + 1 < path.len() {
                    assert(longer[i + 1] == path[i + 1]);
                }
            }
        }
        lemma_finish(g, v, 0, longer, done);
        assert(longer.drop_last() =~= path);
    }
}

proof fn lemma_order_from(g: Seq<Seq<int>>, start: int, done: Seq<int>)
    requires
        graph_ok(g),
        0 <= start <= g.len(),
        topological(g, done),
        distinct_below(done, g.len() as int),
        forall|v: int| 0 <= v < start ==> #[trigger] done.contains(v),
    ensures
        match order_from(g, start, done) {
            Some(d) => {
                &&& topological(g, d)
                &&& distinct_below(d, g.len() as int)
                &&& forall|v: int| 0 <= v < g.len() ==> #[trigger] d.contains(v)
            },
            None => has_cycle(g),
        },
    decreases g.len() - start,
{
    if start < g.len() {
        lemma_visit(g, start, Seq::empty(), done);
        match visit(g, start, Seq::empty(), done) {
            Some(d) => {
                assert forall|v: int| 0 <= v < start + 1 implies #[trigger] d.contains(v) by {
                    if v < start {
                        assert(done.contains(v));
                        let q = choose|q: int| 0 <= q < done.len() && done[q] == v;
                        assert(d.take(done.len() as int)[q] == done[q]);
                        assert(d[q] == v);
                    }
                }
                lemma_order_from(g, start + 1, d);
            },
            None => {},
        }
    }
}

/// The order holds every node once.
proof fn lemma_full_len(s: Seq<int>, n: int)
    requires
        distinct_below(s, n),
        n >= 0,
        forall|v: int| 0 <= v < n ==> #[trigger] s.contains(v),
    ensures
        s.len() == n,
{
    lemma_distinct_len(s, n);
    s.unique_seq_to_set();
    let all = vstd::set_lib::set_int_range(0, n);
    vstd::set_lib::lemma_int_range(0, n);
    assert(all.subset_of(s.to_set())) by {
        assert forall|x: int| all.contains(x) implies s.to_set().contains(x) by {
            assert(s.contains(x));
        }
    }
    vstd::set_lib::lemma_len_subset(all, s.to_set());
}

/// The order, if there is one, holds every node exactly once, each after
/// everything it depends on.
pub proof fn law_order_is_topological(g: Seq<Seq<int>>)
    requires
        graph_ok(g),
        post_order(g) is Some,
    ensures
        distinct_below(post_order(g)->0, g.len() as int),
        post_order(g)->0.len() == g.len(),
        topological(g, post_order(g)->0),
{
    assert(topological(g, Seq::empty()));
    lemma_order_from(g, 0, Seq::empty());
    lemma_full_len(post_order(g)->0, g.len() as int);
}

/// Along a walk of a topological order the places fall.
proof fn lemma_walk_falls(g: Seq<Seq<int>>, order: Seq<int>, walk: Seq<int>, n: int) -> (p: int)
    requires
        graph_ok(g),
        is_walk(g, walk),
        topological(g, order),
        distinct_below(order, g.len() as int),
        forall|v: int| 0 <= v < g.len() ==> #[trigger] order.contains(v),
        1 <= n < walk.len(),
    ensures
        0 <= p < order.len(),
        order[p] == walk[n],
        p < order.index_of(walk[0]),
        order[order.index_of(walk[0])] == walk[0],
        0 <= order.index_of(walk[0]) < order.len(),
    decreases n,
{
    assert(order.contains(walk[0]));
    let q = if n == 1 {
        order.index_of(walk[0])
    } else {
        lemma_walk_falls(g, order, walk, n - 1)
    };
    assert(order[q] == walk[n - 1]);
    assert(g[walk[n - 1]].contains(walk[n - 1 + 1]));
    let edges = g[walk[n - 1]];
    let k = choose|k: int| 0 <= k < edges.len() && edges[k] == walk[n];
    assert(order.take(q).contains(g[order[q]][k]));
    let p = choose|p: int| 0 <= p < order.take(q).len() && order.take(q)[p] == walk[n];
    assert(order[p] == walk[n]);
    p
}

/// There is no order exactly when the graph has a cycle.
pub proof fn law_no_order_iff_cycle(g: Seq<Seq<int>>)
    requires
        graph_ok(g),
    ensures
        post_order(g) is None <==> has_cycle(g),
{
    assert(topological(g, Seq::empty()));
    lemma_order_from(g, 0, Seq::empty());
    if post_order(g) is Some && has_cycle(g) {
        let order = post_order(g)->0;
        let walk = choose|walk: Seq<int>| #[trigger] is_walk(g, walk) && walk.len() >= 2 && walk[0] == walk.last();
        let p = lemma_walk_falls(g, order, walk, walk.len() - 1);
        let q = order.index_of(walk[0]);
        assert(order[p] == order[q]);
        assert(p == q);
    }
}

// ---------------------------------------------------------------------------
// Building and asking the graph
// ---------------------------------------------------------------------------

/// The dependency graph of the tracks of a song. Nodes are the places of the
/// tracks.
#[derive(Debug)]
pub struct TrackDeps {
    ids: Vec<u32>,
    index: HashMap<u32, usize>,
    /// What each track depends on: children, then side chains, then sends.
    deps: Vec<Vec<usize>>,
}

/// Places as mathematical integers.
pub open spec fn places(v: Seq<usize>) -> Seq<int> {
    Seq::new(v.len(), |i: int| v[i] as int)
}

/// `index` finds exactly what [`id_index`] finds among the first `n` ids.
spec fn index_ok(index: Map<u32, usize>, ids: Seq<u32>) -> bool {
    forall|id: u32|
        match id_index(ids, id) {
            Some(i) => #[trigger] index.contains_key(id) && index[id] == i,
            None => !index.contains_key(id),
        }
}

proof fn lemma_id_index_bound(ids: Seq<u32>, id: u32)
    ensures
        id_index(ids, id) matches Some(i) ==> 0 <= i < ids.len() && ids[i] == id && id != 0,
    decreases ids.len(),
{
    if ids.len() > 0 && !(id != 0 && ids.last() == id) {
        lemma_id_index_bound(ids.drop_last(), id);
    }
}

proof fn lemma_chain_owner_bound(tracks: Seq<TrackModel>, chain: u64)
    ensures
        chain_owner(tracks, chain) matches Some(i) ==> 0 <= i < tracks.len(),
    decreases tracks.len(),
{
    if tracks.len() > 0 {
        lemma_chain_owner_bound(tracks.drop_last(), chain);
    }
}

/// Appends the ids of every chain inside `devices`.
pub fn push_chain_ids(devices: &Vec<Device>, out: &mut Vec<u64>)
    ensures
        final(out)@ == old(out)@ + chain_ids(device::device_models(devices@)),
    decreases devices@,
{
    let ghost dm = device::device_models(devices@);
    let ghost start = out@;
    let mut i: usize = 0;
    proof {
        assert(dm.take(0) =~= Seq::<DeviceModel>::empty());
        assert(start + chain_ids(dm.take(0)) =~= start);
    }
    while i < devices.len()
        invariant
            i <= devices@.len(),
            dm == device::device_models(devices@),
            out@ == start + chain_ids(dm.take(i as int)),
        decreases devices@.len() - i,
    {
        let ghost before = out@;
        proof {
            assert(dm.take(i + 1).drop_last() =~= dm.take(i as int));
            assert(dm.take(i + 1).last() == device::device_model(devices@[i as int]));
        }
        match &devices[i] {
            Device::Parallel(p) => {
                let ghost cm = device::chain_models(p.chains@);
                let mut j: usize = 0;
                proof {
                    assert(cm.take(0) =~= Seq::<ChainModel>::empty());
                    assert(before + chains_chain_ids(cm.take(0)) =~= before);
                }
                while j < p.chains.len()
                    invariant
                        i < devices@.len(),
                        devices@[i as int] == Device::Parallel(*p),
                        j <= p.chains@.len(),
                        cm == device::chain_models(p.chains@),
                        out@ == before + chains_chain_ids(cm.take(j as int)),
                    decreases p.chains@.len() - j,
                {
                    let c = &p.chains[j];
                    proof {
                        assert(cm.take(j + 1).drop_last() =~= cm.take(j as int));
                        assert(cm.take(j + 1).last() == device::chain_model(*c));
                        assert(decreases_to!(devices@ => devices@[i as int]));
                        assert(decreases_to!(devices@[i as int] => devices@[i as int]->Parallel_0));
                        assert(decreases_to!(devices@[i as int]->Parallel_0 => p.chains));
                        assert(decreases_to!(p.chains => p.chains@));
                        assert(decreases_to!(p.chains@ => p.chains@[j as int]));
                        assert(decreases_to!(p.chains@[j as int] => c.devices));
                        assert(decreases_to!(c.devices => c.devices@));
                    }
                    out.push(c.id);
                    push_chain_ids(&c.devices, out);
                    proof {
                        let inner = chain_ids(device::device_models(c.devices@));
                        assert((before + chains_chain_ids(cm.take(j as int))).push(c.id) + inner =~= before + (
                        chains_chain_ids(cm.take(j as int)).push(c.id) + inner));
                    }
                    j += 1;
                }
                proof {
                    assert(cm.take(j as int) =~= cm);
                    assert(dm.take(i + 1).last() == (DeviceModel::Parallel { id: p.id, chains: cm }));
                    assert(device_chain_ids(dm.take(i + 1).last()) == chains_chain_ids(cm));
                    assert((start + chain_ids(dm.take(i as int))) + chains_chain_ids(cm) =~= start + (chain_ids(
                        dm.take(i as int),
                    ) + chains_chain_ids(cm)));
                }
            },
            Device::Plugin(p) => {
                proof {
                    assert(dm.take(i + 1).last() == DeviceModel::Plugin(p@));
                    assert(device_chain_ids(dm.take(i + 1).last()) == Seq::<u64>::empty());
                    assert(chain_ids(dm.take(i as int)) + Seq::<u64>::empty() =~= chain_ids(dm.take(i as int)));
                }
            },
            Device::Native(n) => {
                proof {
                    assert(dm.take(i + 1).last() == DeviceModel::Native(*n));
                    assert(device_chain_ids(dm.take(i + 1).last()) == Seq::<u64>::empty());
                    assert(chain_ids(dm.take(i as int)) + Seq::<u64>::empty() =~= chain_ids(dm.take(i as int)));
                }
            },
        }
        i += 1;
    }
    proof {
        assert(dm.take(i as int) =~= dm);
    }
}

/// `owner` finds exactly what [`chain_owner`] finds.
spec fn owners_ok(owner: Map<u64, usize>, tracks: Seq<TrackModel>) -> bool {
    forall|chain: u64|
        match chain_owner(tracks, chain) {
            Some(i) => #[trigger] owner.contains_key(chain) && owner[chain] == i,
            None => !owner.contains_key(chain),
        }
}

/// Maps every chain to the last track that holds it.
fn chain_owners(song: &Song) -> (owner: HashMap<u64, usize>)
    ensures
        owners_ok(owner@, song@.tracks),
{
    broadcast use vstd::std_specs::hash::group_hash_axioms;

    let ghost tm = song@.tracks;
    let mut owner: HashMap<u64, usize> = HashMap::new();
    let mut i: usize = 0;
    proof {
        assert(tm.take(0) =~= Seq::<TrackModel>::empty());
    }
    while i < song.tracks.len()
        invariant
            i <= song.tracks@.len(),
            tm == song@.tracks,
            owners_ok(owner@, tm.take(i as int)),
        decreases song.tracks@.len() - i,
    {
        let mut ids: Vec<u64> = Vec::new();
        push_chain_ids(&song.tracks[i].devices, &mut ids);
        proof {
            assert(Seq::<u64>::empty() + chain_ids(tm[i as int].devices) =~= chain_ids(tm[i as int].devices));
        }
        let ghost before = owner@;
        let mut j: usize = 0;
        while j < ids.len()
            invariant
                i < song.tracks@.len(),
                j <= ids@.len(),
                forall|chain: u64|
                    if ids@.take(j as int).contains(chain) {
                        #[trigger] owner@.contains_key(chain) && owner@[chain] == i
                    } else {
                        owner@.contains_key(chain) == before.contains_key(chain) && (before.contains_key(chain)
                            ==> owner@[chain] == before[chain])
                    },
            decreases ids@.len() - j,
        {
            let ghost prev = owner@;
            owner.insert(ids[j], i);
            proof {
                assert forall|chain: u64|
                    if ids@.take(j + 1).contains(chain) {
                        #[trigger] owner@.contains_key(chain) && owner@[chain] == i
                    } else {
                        owner@.contains_key(chain) == before.contains_key(chain) && (before.contains_key(chain)
                            ==> owner@[chain] == before[chain])
                    } by {
                    assert(prev.contains_key(chain) || !prev.contains_key(chain));
                    assert(ids@.take(j + 1) =~= ids@.take(j as int).push(ids@[j as int]));
                    if ids@.take(j as int).contains(chain) {
                        let q = choose|q: int| 0 <= q < ids@.take(j as int).len() && ids@.take(j as int)[q] == chain;
                        assert(ids@.take(j + 1)[q] == chain);
                    } else if chain == ids@[j as int] {
                        assert(ids@.take(j + 1)[j as int] == chain);
                    } else {
                        assert(!ids@.take(j + 1).contains(chain));
                    }
                }
            }
            j += 1;
        }
        proof {
            assert(ids@.take(j as int) =~= ids@);
            let now = tm.take(i + 1);
            assert(now.drop_last() =~= tm.take(i as int));
            assert(now.last() == tm[i as int]);
            assert forall|chain: u64|
                match chain_owner(now, chain) {
                    Some(k) => #[trigger] owner@.contains_key(chain) && owner@[chain] == k,
                    None => !owner@.contains_key(chain),
                } by {
                assert(before.contains_key(chain) == (chain_owner(tm.take(i as int), chain) is Some));
                assert(owner@.contains_key(chain) == (ids@.contains(chain) || before.contains_key(chain)));
                if ids@.contains(chain) {
                    assert(chain_owner(now, chain) == Some(i as int));
                } else {
                    assert(chain_owner(now, chain) == chain_owner(tm.take(i as int), chain));
                }
            }
        }
        i += 1;
    }
    proof {
        assert(tm.take(i as int) =~= tm);
    }
    owner
}

/// Maps every assigned track id to its last place.
fn id_places(ids: &Vec<u32>) -> (index: HashMap<u32, usize>)
    ensures
        index_ok(index@, ids@),
{
    broadcast use vstd::std_specs::hash::group_hash_axioms;

    let mut index: HashMap<u32, usize> = HashMap::new();
    let mut i: usize = 0;
    proof {
        assert(ids@.take(0) =~= Seq::<u32>::empty());
    }
    while i < ids.len()
        invariant
            i <= ids@.len(),
            index_ok(index@, ids@.take(i as int)),
        decreases ids@.len() - i,
    {
        let ghost before = index@;
        if ids[i] != 0 {
            index.insert(ids[i], i);
        }
        proof {
            let now = ids@.take(i + 1);
            assert(now.drop_last() =~= ids@.take(i as int));
            assert(now.last() == ids@[i as int]);
            assert forall|id: u32|
                match id_index(now, id) {
                    Some(k) => #[trigger] index@.contains_key(id) && index@[id] == k,
                    None => !index@.contains_key(id),
                } by {
                assert(before.contains_key(id) || !before.contains_key(id));
            }
        }
        i += 1;
    }
    proof {
        assert(ids@.take(i as int) =~= ids@);
    }
    index
}

/// The lists built so far stand for `lists`.
spec fn lists_are(deps: Seq<Vec<usize>>, n: int, lists: spec_fn(int) -> Seq<int>) -> bool {
    &&& deps.len() == n
    &&& forall|g: int| 0 <= g < n ==> places((#[trigger] deps[g])@) == lists(g)
}

/// Appends `x` to the list at place `g`.
fn push_dep(deps: &mut Vec<Vec<usize>>, g: usize, x: usize)
    requires
        g < old(deps)@.len(),
    ensures
        final(deps)@.len() == old(deps)@.len(),
        forall|k: int|
            0 <= k < old(deps)@.len() && k != g ==> (#[trigger] final(deps)@[k]) == old(deps)@[k],
        places(final(deps)@[g as int]@) == places(old(deps)@[g as int]@).push(x as int),
{
    let ghost before = deps@;
    deps[g].push(x);
    assert(places(deps@[g as int]@) =~= places(before[g as int]@).push(x as int));
}

/// Adds the children of every track.
fn add_children(song: &Song, index: &HashMap<u32, usize>, deps: &mut Vec<Vec<usize>>)
    requires
        index_ok(index@, track_ids(song@.tracks)),
        lists_are(old(deps)@, song@.tracks.len() as int, |g: int| Seq::<int>::empty()),
    ensures
        lists_are(
            final(deps)@,
            song@.tracks.len() as int,
            |g: int| children(song@.tracks, g, song@.tracks.len()),
        ),
{
    broadcast use vstd::std_specs::hash::group_hash_axioms;

    let ghost tm = song@.tracks;
    let mut j: usize = 0;
    while j < song.tracks.len()
        invariant
            tm == song@.tracks,
            j <= song.tracks@.len(),
            index_ok(index@, track_ids(tm)),
            lists_are(deps@, tm.len() as int, |g: int| children(tm, g, j as nat)),
        decreases song.tracks@.len() - j,
    {
        let ghost before = deps@;
        assert(tm[j as int] == song.tracks@[j as int]@);
        match song.tracks[j].parent_group_id {
            Some(parent) => match index.get(&parent) {
                Some(g) => {
                    let g: usize = *g;
                    proof {
                        assert(index@.contains_key(parent));
                        lemma_id_index_bound(track_ids(tm), parent);
                    }
                    push_dep(deps, g, j);
                    assert forall|k: int| 0 <= k < tm.len() implies places((#[trigger] deps@[k])@) == children(
                        tm,
                        k,
                        (j + 1) as nat,
                    ) by {
                        assert(places(before[k]@) == children(tm, k, j as nat));
                    }
                },
                None => {
                    assert(!index@.contains_key(parent));
                    assert forall|k: int| 0 <= k < tm.len() implies places((#[trigger] deps@[k])@) == children(
                        tm,
                        k,
                        (j + 1) as nat,
                    ) by {}
                },
            },
            None => {
                assert forall|k: int| 0 <= k < tm.len() implies places((#[trigger] deps@[k])@) == children(
                    tm,
                    k,
                    (j + 1) as nat,
                ) by {}
            },
        }
        j += 1;
    }
}

/// The place of the track that a tap reads.
fn find_source(
    source: TapSource,
    index: &HashMap<u32, usize>,
    owner: &HashMap<u64, usize>,
    Ghost(tm): Ghost<Seq<TrackModel>>,
) -> (r: Option<usize>)
    requires
        index_ok(index@, track_ids(tm)),
        owners_ok(owner@, tm),
    ensures
        match r {
            Some(s) => source_track(tm, source) == Some(s as int) && s < tm.len(),
            None => source_track(tm, source) is None,
        },
{
    broadcast use vstd::std_specs::hash::group_hash_axioms;

    match source {
        TapSource::Track(id) => {
            proof {
                lemma_id_index_bound(track_ids(tm), id);
                assert(index@.contains_key(id) || !index@.contains_key(id));
            }
            match index.get(&id) {
                Some(s) => Some(*s),
                None => None,
            }
        },
        TapSource::Chain(chain) => {
            proof {
                lemma_chain_owner_bound(tm, chain);
                assert(owner@.contains_key(chain) || !owner@.contains_key(chain));
            }
            match owner.get(&chain) {
                Some(s) => Some(*s),
                None => None,
            }
        },
    }
}

/// Appends what the side chains of track `i` read to its list.
fn add_track_side_chains(
    song: &Song,
    i: usize,
    scope: EdgeScope,
    index: &HashMap<u32, usize>,
    owner: &HashMap<u64, usize>,
    deps: &mut Vec<Vec<usize>>,
)
    requires
        i < song@.tracks.len(),
        old(deps)@.len() == song@.tracks.len(),
        index_ok(index@, track_ids(song@.tracks)),
        owners_ok(owner@, song@.tracks),
    ensures
        final(deps)@.len() == old(deps)@.len(),
        forall|k: int|
            0 <= k < old(deps)@.len() && k != i ==> (#[trigger] final(deps)@[k]) == old(deps)@[k],
        places(final(deps)@[i as int]@) == places(old(deps)@[i as int]@) + consumer_sources(
            song@.tracks,
            i as int,
            track_consumers(song@.tracks[i as int]),
            scope,
        ),
{
    let ghost tm = song@.tracks;
    let t = &song.tracks[i];
    assert(tm[i as int] == t@);
    let cs = aux_consumers(t.devices.as_slice(), t.automation_lanes.as_slice(), t.mod_routings.as_slice()).collect();
    let ghost cm = model::models(cs@);
    let ghost base = places(deps@[i as int]@);
    assert(cm == track_consumers(tm[i as int]));
    let mut c: usize = 0;
    proof {
        assert(cm.take(0) =~= Seq::<ConsumerModel>::empty());
        assert(base + consumer_sources(tm, i as int, cm.take(0), scope) =~= base);
    }
    while c < cs.len()
        invariant
            tm == song@.tracks,
            i < tm.len(),
            c <= cs@.len(),
            cm == model::models(cs@),
            index_ok(index@, track_ids(tm)),
            owners_ok(owner@, tm),
            deps@.len() == tm.len(),
            deps@.len() == old(deps)@.len(),
            forall|k: int|
                0 <= k < old(deps)@.len() && k != i ==> (#[trigger] deps@[k]) == old(deps)@[k],
            places(deps@[i as int]@) == base + consumer_sources(tm, i as int, cm.take(c as int), scope),
        decreases cs@.len() - c,
    {
        let ghost so_far = consumer_sources(tm, i as int, cm.take(c as int), scope);
        proof {
            assert(cm.take(c + 1).drop_last() =~= cm.take(c as int));
            assert(cm.take(c + 1).last() == cs@[c as int]@);
        }
        if !(scope == EdgeScope::Active && cs[c].inactive) {
            let routes = &cs[c].routes;
            let mut p: usize = 0;
            proof {
                assert(routes@.take(0) =~= Seq::<Option<AuxInputRoute>>::empty());
                assert((base + so_far) + route_sources(tm, i as int, routes@.take(0)) =~= base + so_far);
            }
            while p < routes.len()
                invariant
                    tm == song@.tracks,
                    i < tm.len(),
                    p <= routes@.len(),
                    index_ok(index@, track_ids(tm)),
                    owners_ok(owner@, tm),
                    deps@.len() == tm.len(),
                    deps@.len() == old(deps)@.len(),
                    forall|k: int|
                        0 <= k < old(deps)@.len() && k != i ==> (#[trigger] deps@[k]) == old(deps)@[k],
                    places(deps@[i as int]@) == (base + so_far) + route_sources(
                        tm,
                        i as int,
                        routes@.take(p as int),
                    ),
                decreases routes@.len() - p,
            {
                proof {
                    assert(routes@.take(p + 1).drop_last() =~= routes@.take(p as int));
                    assert(routes@.take(p + 1).last() == routes@[p as int]);
                }
                let ghost before = (base + so_far) + route_sources(tm, i as int, routes@.take(p as int));
                if let Some(route) = routes[p] {
                    if let Some(s) = find_source(route.tap.source, index, owner, Ghost(tm)) {
                        if s != i {
                            push_dep(deps, i, s);
                            assert(before.push(s as int) =~= (base + so_far) + route_sources(
                                tm,
                                i as int,
                                routes@.take(p as int),
                            ).push(s as int));
                        }
                    }
                }
                p += 1;
            }
            proof {
                assert(routes@.take(p as int) =~= routes@);
                assert((base + so_far) + route_sources(tm, i as int, routes@) =~= base + (so_far + route_sources(
                    tm,
                    i as int,
                    routes@,
                )));
            }
        }
        c += 1;
    }
    proof {
        assert(cm.take(c as int) =~= cm);
    }
}

/// Adds the sources of the sends into every track.
fn add_sends(song: &Song, index: &HashMap<u32, usize>, deps: &mut Vec<Vec<usize>>, Ghost(base): Ghost<Seq<Seq<int>>>)
    requires
        index_ok(index@, track_ids(song@.tracks)),
        base.len() == song@.tracks.len(),
        lists_are(old(deps)@, song@.tracks.len() as int, |g: int| base[g]),
    ensures
        lists_are(
            final(deps)@,
            song@.tracks.len() as int,
            |g: int| base[g] + send_sources(song@.tracks, g, song@.tracks.len()),
        ),
{
    broadcast use vstd::std_specs::hash::group_hash_axioms;

    let ghost tm = song@.tracks;
    let ghost ids = track_ids(tm);
    let mut src: usize = 0;
    proof {
        assert forall|g: int| 0 <= g < tm.len() implies places((#[trigger] deps@[g])@) == base[g] + send_sources(
            tm,
            g,
            0,
        ) by {
            assert(base[g] + Seq::<int>::empty() =~= base[g]);
        }
    }
    while src < song.tracks.len()
        invariant
            tm == song@.tracks,
            ids == track_ids(tm),
            src <= song.tracks@.len(),
            base.len() == tm.len(),
            index_ok(index@, ids),
            lists_are(deps@, tm.len() as int, |g: int| base[g] + send_sources(tm, g, src as nat)),
        decreases song.tracks@.len() - src,
    {
        let sends = &song.tracks[src].sends;
        assert(tm[src as int].sends == sends@);
        let mut k: usize = 0;
        proof {
            assert(sends@.take(0) =~= Seq::<Send>::empty());
            assert forall|g: int| 0 <= g < tm.len() implies places((#[trigger] deps@[g])@) == base[g] + send_sources(
                tm,
                g,
                src as nat,
            ) + send_edges(ids, g, src as int, sends@.take(0)) by {
                let l = base[g] + send_sources(tm, g, src as nat);
                assert(l + Seq::<int>::empty() =~= l);
            }
        }
        while k < sends.len()
            invariant
                tm == song@.tracks,
                ids == track_ids(tm),
                src < tm.len(),
                k <= sends@.len(),
                base.len() == tm.len(),
                index_ok(index@, ids),
                lists_are(
                    deps@,
                    tm.len() as int,
                    |g: int|
                        base[g] + send_sources(tm, g, src as nat) + send_edges(
                            ids,
                            g,
                            src as int,
                            sends@.take(k as int),
                        ),
                ),
            decreases sends@.len() - k,
        {
            let ghost before = deps@;
            let dest: u32 = sends[k].dest_track_id;
            proof {
                assert(sends@.take(k + 1).drop_last() =~= sends@.take(k as int));
                assert(sends@.take(k + 1).last() == sends@[k as int]);
                lemma_id_index_bound(ids, dest);
                assert(index@.contains_key(dest) || !index@.contains_key(dest));
            }
            if let Some(d) = index.get(&dest) {
                push_dep(deps, *d, src);
            }
            proof {
                assert forall|g: int| 0 <= g < tm.len() implies places((#[trigger] deps@[g])@) == base[g]
                    + send_sources(tm, g, src as nat) + send_edges(ids, g, src as int, sends@.take(k + 1)) by {
                    let l = base[g] + send_sources(tm, g, src as nat);
                    let e = send_edges(ids, g, src as int, sends@.take(k as int));
                    assert(places(before[g]@) == l + e);
                    if id_index(ids, dest) == Some(g) {
                        assert((l + e).push(src as int) =~= l + e.push(src as int));
                    }
                }
            }
            k += 1;
        }
        proof {
            assert(sends@.take(k as int) =~= sends@);
            assert forall|g: int| 0 <= g < tm.len() implies places((#[trigger] deps@[g])@) == base[g] + send_sources(
                tm,
                g,
                (src + 1) as nat,
            ) by {
                let e = send_edges(ids, g, src as int, sends@);
                assert(base[g] + send_sources(tm, g, src as nat) + e =~= base[g] + (send_sources(tm, g, src as nat)
                    + e));
            }
        }
        src += 1;
    }
}

impl TrackDeps {
    /// The ids of the tracks.
    pub closed spec fn ids(&self) -> Seq<u32> {
        self.ids@
    }

    /// The edges of the graph.
    pub closed spec fn graph(&self) -> Seq<Seq<int>> {
        Seq::new(self.deps@.len(), |i: int| places(self.deps@[i]@))
    }

    /// Every edge ends at a track, and every assigned id finds its track.
    pub closed spec fn valid(&self) -> bool {
        &&& self.deps@.len() == self.ids@.len()
        &&& graph_ok(self.graph())
        &&& index_ok(self.index@, self.ids@)
    }

    /// Builds the graph of `song`.
    pub fn build(song: &Song, scope: EdgeScope) -> (r: TrackDeps)
        ensures
            r.valid(),
            r.ids() == track_ids(song@.tracks),
            r.graph() == song_graph(song@.tracks, scope),
    {
        let ghost tm = song@.tracks;
        let mut ids: Vec<u32> = Vec::new();
        let mut deps: Vec<Vec<usize>> = Vec::new();
        let mut n: usize = 0;
        while n < song.tracks.len()
            invariant
                tm == song@.tracks,
                n <= song.tracks@.len(),
                ids@.len() == n,
                forall|k: int| 0 <= k < n ==> ids@[k] == (#[trigger] tm[k]).id,
                lists_are(deps@, n as int, |g: int| Seq::<int>::empty()),
            decreases song.tracks@.len() - n,
        {
            assert(tm[n as int] == song.tracks@[n as int]@);
            ids.push(song.tracks[n].id);
            deps.push(Vec::new());
            proof {
                assert forall|g: int| 0 <= g < n + 1 implies places((#[trigger] deps@[g])@) == Seq::<int>::empty() by {
                    assert(places(deps@[g]@) =~= Seq::<int>::empty());
                }
            }
            n += 1;
        }
        assert(ids@ =~= track_ids(tm));
        let index = id_places(&ids);
        let owner = chain_owners(song);
        add_children(song, &index, &mut deps);
        let mut i: usize = 0;
        let ghost kids = deps@;
        while i < song.tracks.len()
            invariant
                tm == song@.tracks,
                i <= song.tracks@.len(),
                index_ok(index@, track_ids(tm)),
                owners_ok(owner@, tm),
                deps@.len() == tm.len(),
                forall|g: int|
                    0 <= g < tm.len() ==> places((#[trigger] deps@[g])@) == if g < i {
                        children(tm, g, tm.len()) + consumer_sources(tm, g, track_consumers(tm[g]), scope)
                    } else {
                        children(tm, g, tm.len())
                    },
            decreases song.tracks@.len() - i,
        {
            add_track_side_chains(song, i, scope, &index, &owner, &mut deps);
            i += 1;
        }
        let ghost base = Seq::new(
            tm.len(),
            |g: int| children(tm, g, tm.len()) + consumer_sources(tm, g, track_consumers(tm[g]), scope),
        );
        add_sends(song, &index, &mut deps, Ghost(base));
        let r = TrackDeps { ids, index, deps };
        proof {
            assert(r.graph() =~= song_graph(tm, scope)) by {
                assert forall|g: int| 0 <= g < tm.len() implies r.graph()[g] == track_edges(tm, scope, g) by {
                    assert(places(deps@[g]@) == base[g] + send_sources(tm, g, tm.len()));
                }
            }
            law_song_graph_ok(tm, scope);
        }
        r
    }
}

/// Every element is below `n`.
spec fn all_below(s: Seq<int>, n: int) -> bool {
    forall|k: int| 0 <= k < s.len() ==> 0 <= #[trigger] s[k] < n
}

proof fn lemma_children_ok(tracks: Seq<TrackModel>, g: int, n: nat)
    requires
        n <= tracks.len(),
    ensures
        all_below(children(tracks, g, n), n as int),
    decreases n,
{
    if n > 0 {
        lemma_children_ok(tracks, g, (n - 1) as nat);
        let before = children(tracks, g, (n - 1) as nat);
        assert(all_below(before.push(n - 1), n as int));
        assert(all_below(before, n as int));
    }
}

proof fn lemma_source_ok(tracks: Seq<TrackModel>, source: TapSource)
    ensures
        source_track(tracks, source) matches Some(s) ==> 0 <= s < tracks.len(),
{
    match source {
        TapSource::Track(id) => lemma_id_index_bound(track_ids(tracks), id),
        TapSource::Chain(chain) => lemma_chain_owner_bound(tracks, chain),
    }
}

proof fn lemma_route_sources_ok(tracks: Seq<TrackModel>, i: int, routes: Seq<Option<AuxInputRoute>>)
    ensures
        all_below(route_sources(tracks, i, routes), tracks.len() as int),
    decreases routes.len(),
{
    if routes.len() > 0 {
        lemma_route_sources_ok(tracks, i, routes.drop_last());
        let before = route_sources(tracks, i, routes.drop_last());
        if let Some(route) = routes.last() {
            lemma_source_ok(tracks, route.tap.source);
            if let Some(s) = source_track(tracks, route.tap.source) {
                assert(all_below(before.push(s), tracks.len() as int));
            }
        }
    }
}

proof fn lemma_consumer_sources_ok(tracks: Seq<TrackModel>, i: int, cs: Seq<ConsumerModel>, scope: EdgeScope)
    ensures
        all_below(consumer_sources(tracks, i, cs, scope), tracks.len() as int),
    decreases cs.len(),
{
    if cs.len() > 0 {
        lemma_consumer_sources_ok(tracks, i, cs.drop_last(), scope);
        lemma_route_sources_ok(tracks, i, cs.last().routes);
        let a = consumer_sources(tracks, i, cs.drop_last(), scope);
        let b = route_sources(tracks, i, cs.last().routes);
        assert(all_below(a + b, tracks.len() as int));
    }
}

proof fn lemma_send_edges_ok(ids: Seq<u32>, dest: int, src: int, sends: Seq<Send>)
    requires
        src >= 0,
    ensures
        all_below(send_edges(ids, dest, src, sends), src + 1),
    decreases sends.len(),
{
    if sends.len() > 0 {
        lemma_send_edges_ok(ids, dest, src, sends.drop_last());
        assert(all_below(send_edges(ids, dest, src, sends.drop_last()).push(src), src + 1));
    }
}

proof fn lemma_send_sources_ok(tracks: Seq<TrackModel>, dest: int, n: nat)
    requires
        n <= tracks.len(),
    ensures
        all_below(send_sources(tracks, dest, n), n as int),
    decreases n,
{
    if n > 0 {
        lemma_send_sources_ok(tracks, dest, (n - 1) as nat);
        lemma_send_edges_ok(track_ids(tracks), dest, n - 1, tracks[n - 1].sends);
        let a = send_sources(tracks, dest, (n - 1) as nat);
        let b = send_edges(track_ids(tracks), dest, n - 1, tracks[n - 1].sends);
        assert(all_below(a + b, n as int));
    }
}

/// Every edge of a song's graph ends at a track.
pub proof fn law_song_graph_ok(tracks: Seq<TrackModel>, scope: EdgeScope)
    ensures
        graph_ok(song_graph(tracks, scope)),
{
    let g = song_graph(tracks, scope);
    assert forall|i: int, k: int| 0 <= i < g.len() && 0 <= k < g[i].len() implies 0 <= #[trigger] g[i][k]
        < g.len() by {
        lemma_children_ok(tracks, i, tracks.len());
        lemma_consumer_sources_ok(tracks, i, track_consumers(tracks[i]), scope);
        lemma_send_sources_ok(tracks, i, tracks.len());
        let a = children(tracks, i, tracks.len());
        let b = consumer_sources(tracks, i, track_consumers(tracks[i]), scope);
        let c = send_sources(tracks, i, tracks.len());
        assert(all_below(a + b + c, tracks.len() as int));
    }
}

// ---------------------------------------------------------------------------
// The order, by an explicit stack
// ---------------------------------------------------------------------------

/// The nodes of the stack: the path that is being followed.
spec fn stack_path(stack: Seq<(usize, usize)>) -> Seq<int> {
    Seq::new(stack.len(), |i: int| stack[i].0 as int)
}

/// What is left to do once the nodes of the stack are finished from the top.
spec fn unwind(g: Seq<Seq<int>>, stack: Seq<(usize, usize)>, done: Seq<int>) -> Option<Seq<int>>
    decreases stack.len(),
{
    if stack.len() == 0 {
        Some(done)
    } else {
        match finish(g, stack.last().0 as int, stack.last().1 as nat, stack_path(stack), done) {
            Some(d) => unwind(g, stack.drop_last(), d),
            None => None,
        }
    }
}

/// The order that results when the stack is unwound and the nodes after `start`
/// are visited.
spec fn continued(g: Seq<Seq<int>>, stack: Seq<(usize, usize)>, start: int, done: Seq<int>) -> Option<Seq<int>> {
    match unwind(g, stack, done) {
        Some(d) => order_from(g, start + 1, d),
        None => None,
    }
}

/// The edges that the stack has still to follow.
spec fn edges_left(g: Seq<Seq<int>>, stack: Seq<(usize, usize)>) -> nat
    decreases stack.len(),
{
    if stack.len() == 0 {
        0
    } else {
        edges_left(g, stack.drop_last()) + 1 + (if stack.last().1 <= g[stack.last().0 as int].len() {
            (g[stack.last().0 as int].len() - stack.last().1) as nat
        } else {
            0
        })
    }
}

/// The marks agree with the finished nodes and the path.
spec fn marks_ok(state: Seq<u8>, path: Seq<int>, done: Seq<int>, n: int) -> bool {
    &&& state.len() == n
    &&& distinct_below(done + path, n)
    &&& forall|v: int|
        0 <= v < n ==> (#[trigger] state[v] == 2 <==> done.contains(v)) && (state[v] == 1 <==> path.contains(v)) && (
        state[v] == 0 || state[v] == 1 || state[v] == 2)
}

/// The edge at the top of the stack leads to a finished node: it is passed.
proof fn lemma_pass_edge(
    g: Seq<Seq<int>>,
    stack: Seq<(usize, usize)>,
    next: Seq<(usize, usize)>,
    start: int,
    done: Seq<int>,
)
    requires
        stack.len() > 0,
        stack.last().1 < g[stack.last().0 as int].len(),
        next == stack.update(stack.len() - 1, (stack.last().0, next.last().1)),
        next.last().1 == stack.last().1 + 1,
        done.contains(g[stack.last().0 as int][stack.last().1 as int]),
    ensures
        continued(g, stack, start, done) == continued(g, next, start, done),
        edges_left(g, next) < edges_left(g, stack),
        stack_path(next) == stack_path(stack),
{
    assert(stack_path(next) =~= stack_path(stack));
    assert(next.drop_last() =~= stack.drop_last());
    let v = stack.last().0 as int;
    let k = stack.last().1 as nat;
    let path = stack_path(stack);
    assert(visit(g, g[v][k as int], path, done) == Some(done));
    assert(finish(g, v, k, path, done) == finish(g, v, k + 1, path, done));
    assert(next.last() == (stack.last().0, next.last().1));
}

/// The edge at the top of the stack leads to a node not met yet: it is entered.
proof fn lemma_enter_node(
    g: Seq<Seq<int>>,
    stack: Seq<(usize, usize)>,
    passed: Seq<(usize, usize)>,
    next: Seq<(usize, usize)>,
    start: int,
    done: Seq<int>,
)
    requires
        stack.len() > 0,
        stack.len() < g.len(),
        stack.last().1 < g[stack.last().0 as int].len(),
        passed == stack.update(stack.len() - 1, (stack.last().0, passed.last().1)),
        passed.last().1 == stack.last().1 + 1,
        next == passed.push((next.last().0, 0usize)),
        next.last().0 == g[stack.last().0 as int][stack.last().1 as int],
        !done.contains(next.last().0 as int),
        !stack_path(stack).contains(next.last().0 as int),
    ensures
        continued(g, stack, start, done) == continued(g, next, start, done),
        stack_path(next) == stack_path(stack).push(next.last().0 as int),
{
    assert(stack_path(passed) =~= stack_path(stack));
    assert(passed.drop_last() =~= stack.drop_last());
    assert(next.drop_last() =~= passed);
    assert(stack_path(next) =~= stack_path(stack).push(next.last().0 as int));
    let v = stack.last().0 as int;
    let k = stack.last().1 as nat;
    let path = stack_path(stack);
    let t = g[v][k as int];
    assert(passed.last() == (stack.last().0, passed.last().1));
    assert(visit(g, t, path, done) == finish(g, t, 0, path.push(t), done));
    match finish(g, t, 0, path.push(t), done) {
        Some(d) => {
            assert(finish(g, v, k, path, done) == finish(g, v, k + 1, path, d));
            assert(unwind(g, next, done) == unwind(g, passed, d));
        },
        None => {
            assert(finish(g, v, k, path, done) is None);
        },
    }
}

impl TrackDeps {
    /// The tracks in the order they have to run: each after everything it
    /// depends on. Tracks are started in song order and edges are followed in
    /// theirs, so the order is the depth-first post-order of the graph.
    pub fn dependency_order(&self) -> (r: Result<Vec<u32>, DependencyCycle>)
        requires
            self.valid(),
        ensures
            match post_order(self.graph()) {
                Some(order) => r is Ok && r->Ok_0@ == Seq::new(order.len(), |i: int| order[i] as u32),
                None => r == Err::<Vec<u32>, DependencyCycle>(DependencyCycle),
            },
    {
        let ghost g = self.graph();
        let n: usize = self.ids.len();
        let mut state: Vec<u8> = Vec::new();
        let mut k: usize = 0;
        while k < n
            invariant
                k <= n,
                state@.len() == k,
                forall|v: int| 0 <= v < k ==> #[trigger] state@[v] == 0,
            decreases n - k,
        {
            state.push(0);
            k += 1;
        }
        let mut order: Vec<u32> = Vec::new();
        let ghost mut done: Seq<int> = Seq::empty();
        let mut start: usize = 0;
        proof {
            assert(order@ =~= Seq::new(done.len(), |i: int| done[i] as u32));
        }
        while start < n
            invariant
                self.valid(),
                g == self.graph(),
                n == g.len(),
                n == self.deps@.len(),
                start <= n,
                marks_ok(state@, Seq::empty(), done, n as int),
                order@ == Seq::new(done.len(), |i: int| done[i] as u32),
                post_order(g) == order_from(g, start as int, done),
            decreases n - start,
        {
            if state[start] == 0 {
                let mut stack: Vec<(usize, usize)> = Vec::new();
                stack.push((start, 0));
                proof {
                    let empty = Seq::<int>::empty();
                    assert(done + empty =~= done);
                    let path = stack_path(stack@);
                    assert(path =~= empty.push(start as int));
                    assert(done.contains(start as int) <==> state@[start as int] == 2);
                    assert(stack@.drop_last() =~= Seq::<(usize, usize)>::empty());
                    assert(visit(g, start as int, empty, done) == finish(g, start as int, 0, path, done));
                    match finish(g, start as int, 0, path, done) {
                        Some(d) => {
                            assert(unwind(g, stack@, done) == unwind(g, stack@.drop_last(), d));
                            assert(unwind(g, stack@.drop_last(), d) == Some(d));
                        },
                        None => {},
                    }
                    assert(path[0] == start as int);
                    assert(post_order(g) == continued(g, stack@, start as int, done));
                    assert(done + path =~= done.push(start as int));
                }
                state.set(start, 1);
                proof {
                    let path = stack_path(stack@);
                    assert forall|v: int| 0 <= v < n implies (#[trigger] state@[v] == 2 <==> done.contains(v)) && (
                    state@[v] == 1 <==> path.contains(v)) && (state@[v] == 0 || state@[v] == 1 || state@[v] == 2) by {
                        if v == start {
                            assert(path[0] == v);
                        }
                    }
                }
                while stack.len() > 0
                    invariant
                        self.valid(),
                        g == self.graph(),
                        n == g.len(),
                        n == self.deps@.len(),
                        start < n,
                        marks_ok(state@, stack_path(stack@), done, n as int),
                        order@ == Seq::new(done.len(), |i: int| done[i] as u32),
                        forall|i: int|
                            0 <= i < stack@.len() ==> (#[trigger] stack@[i]).0 < n && stack@[i].1
                                <= g[stack@[i].0 as int].len(),
                        post_order(g) == continued(g, stack@, start as int, done),
                        done.contains(start as int) || stack_path(stack@).contains(start as int),
                    decreases n - done.len() - stack@.len(), edges_left(g, stack@),
                {
                    let top: usize = stack.len() - 1;
                    let (node, edge) = stack[top];
                    let ghost before = stack@;
                    let ghost path = stack_path(stack@);
                    proof {
                        lemma_distinct_len(done + path, n as int);
                        assert(g[node as int] == places(self.deps@[node as int]@));
                        assert(path[top as int] == node);
                    }
                    if edge >= self.deps[node].len() {
                        state.set(node, 2);
                        order.push(node as u32);
                        stack.pop();
                        proof {
                            assert(before.drop_last() =~= stack@);
                            let prev = done;
                            done = done.push(node as int);
                            let shorter = stack_path(stack@);
                            assert(shorter =~= path.drop_last());
                            assert(path =~= shorter.push(node as int));
                            assert(order@ =~= Seq::new(done.len(), |i: int| done[i] as u32));
                            let a = prev + path;
                            let b = done + shorter;
                            assert(b.len() == a.len());
                            // The node moves from the end of the path to the end of the
                            // finished nodes.
                            assert forall|i: int, j: int| 0 <= i < b.len() && 0 <= j < b.len() && i != j implies b[i]
                                != b[j] by {
                                let ai = if i < prev.len() {
                                    i
                                } else if i == prev.len() {
                                    a.len() - 1
                                } else {
                                    i - 1
                                };
                                let aj = if j < prev.len() {
                                    j
                                } else if j == prev.len() {
                                    a.len() - 1
                                } else {
                                    j - 1
                                };
                                assert(a[ai] == b[i]);
                                assert(a[aj] == b[j]);
                            }
                            assert forall|i: int| 0 <= i < b.len() implies 0 <= #[trigger] b[i] < n by {
                                if i < prev.len() {
                                    assert(a[i] == b[i]);
                                } else if i == prev.len() {
                                    assert(b[i] == node);
                                } else {
                                    assert(a[i - 1] == b[i]);
                                }
                            }
                            assert forall|v: int| 0 <= v < n implies (#[trigger] state@[v] == 2 <==> done.contains(v))
                                && (state@[v] == 1 <==> shorter.contains(v)) && (state@[v] == 0 || state@[v] == 1
                                || state@[v] == 2) by {
                                if v == node {
                                    assert(done[prev.len() as int] == v);
                                    if shorter.contains(v) {
                                        let q = choose|q: int| 0 <= q < shorter.len() && shorter[q] == v;
                                        assert(b[prev.len() as int] == v);
                                        assert(b[prev.len() + 1 + q] == v);
                                    }
                                } else {
                                    if prev.contains(v) {
                                        let q = choose|q: int| 0 <= q < prev.len() && prev[q] == v;
                                        assert(done[q] == v);
                                    }
                                    if path.contains(v) {
                                        let q = choose|q: int| 0 <= q < path.len() && path[q] == v;
                                        assert(shorter[q] == v);
                                    }
                                    if shorter.contains(v) {
                                        let q = choose|q: int| 0 <= q < shorter.len() && shorter[q] == v;
                                        assert(path[q] == v);
                                    }
                                }
                            }
                            if path.contains(start as int) {
                                let q = choose|q: int| 0 <= q < path.len() && path[q] == start as int;
                                if q < shorter.len() {
                                    assert(shorter[q] == start as int);
                                } else {
                                    assert(done[prev.len() as int] == start as int);
                                }
                            } else {
                                let q = choose|q: int| 0 <= q < prev.len() && prev[q] == start as int;
                                assert(done[q] == start as int);
                            }
                        }
                        continue;
                    }
                    let target: usize = self.deps[node][edge];
                    proof {
                        assert(g[node as int][edge as int] == target);
                        assert(0 <= g[node as int][edge as int] < g.len());
                    }
                    stack.set(top, (node, edge + 1));
                    if state[target] == 0 {
                        proof {
                            let longer = (done + path).push(target as int);
                            assert(!done.contains(target as int));
                            assert(!path.contains(target as int));
                            assert forall|i: int| 0 <= i < (done + path).len() implies (done + path)[i]
                                != target as int by {
                                if i < done.len() {
                                    assert(done.contains((done + path)[i]));
                                } else {
                                    assert(path[i - done.len()] == (done + path)[i]);
                                    assert(path.contains((done + path)[i]));
                                }
                            }
                            assert(distinct_below(longer, n as int));
                            lemma_distinct_len(longer, n as int);
                            assert(longer =~= done + path.push(target as int));
                        }
                        let ghost passed = stack@;
                        state.set(target, 1);
                        stack.push((target, 0));
                        proof {
                            lemma_enter_node(g, before, passed, stack@, start as int, done);
                            let longer = stack_path(stack@);
                            assert forall|v: int| 0 <= v < n implies (#[trigger] state@[v] == 2 <==> done.contains(v))
                                && (state@[v] == 1 <==> longer.contains(v)) && (state@[v] == 0 || state@[v] == 1
                                || state@[v] == 2) by {
                                if v == target {
                                    assert(longer[path.len() as int] == v);
                                } else {
                                    if path.contains(v) {
                                        let q = choose|q: int| 0 <= q < path.len() && path[q] == v;
                                        assert(longer[q] == v);
                                    }
                                    if longer.contains(v) {
                                        let q = choose|q: int| 0 <= q < longer.len() && longer[q] == v;
                                        assert(path[q] == v);
                                    }
                                }
                            }
                            if path.contains(start as int) {
                                let q = choose|q: int| 0 <= q < path.len() && path[q] == start as int;
                                assert(longer[q] == start as int);
                            }
                        }
                    } else if state[target] == 1 {
                        proof {
                            assert(path.contains(target as int));
                            assert(!done.contains(target as int));
                            assert(visit(g, target as int, path, done) is None);
                            assert(finish(g, node as int, edge as nat, path, done) is None);
                            assert(unwind(g, before, done) is None);
                        }
                        return Err(DependencyCycle);
                    } else {
                        proof {
                            lemma_pass_edge(g, before, stack@, start as int, done);
                        }
                    }
                }
                proof {
                    assert(stack_path(stack@) =~= Seq::<int>::empty());
                }
            } else {
                proof {
                    assert(done.contains(start as int));
                }
            }
            start += 1;
        }
        Ok(order)
    }
}

// ---------------------------------------------------------------------------
// Would an edge close a cycle
// ---------------------------------------------------------------------------

pub proof fn lemma_reaches_step(g: Seq<Seq<int>>, a: int, b: int, c: int)
    requires
        graph_ok(g),
        reaches(g, a, b),
        0 <= b < g.len(),
        g[b].contains(c),
    ensures
        reaches(g, a, c),
{
    let walk = choose|walk: Seq<int>| #[trigger] is_walk(g, walk) && walk[0] == a && walk.last() == b;
    let longer = walk.push(c);
    let edges = g[b];
    let k = choose|k: int| 0 <= k < edges.len() && edges[k] == c;
    assert(0 <= g[b][k] < g.len());
    assert forall|i: int| #![trigger longer[i]] 0 <= i < longer.len() - 1 implies g[longer[i]].contains(longer[i + 1]) by {
        assert(longer[i] == walk[i]);
        if i + 1 < walk.len() {
            assert(longer[i + 1] == walk[i + 1]);
        }
    }
    assert(is_walk(g, longer));
    assert(longer.last() == c);
}

/// A set of nodes that every edge stays in holds everything it reaches.
proof fn lemma_closed_reaches(g: Seq<Seq<int>>, seen: Seq<bool>, walk: Seq<int>, n: int)
    requires
        is_walk(g, walk),
        seen.len() == g.len(),
        seen[walk[0]],
        forall|u: int, k: int| 0 <= u < g.len() && seen[u] && 0 <= k < g[u].len() ==> seen[#[trigger] g[u][k]],
        0 <= n < walk.len(),
    ensures
        seen[walk[n]],
    decreases n,
{
    if n > 0 {
        lemma_closed_reaches(g, seen, walk, n - 1);
        let edges = g[walk[n - 1]];
        assert(edges.contains(walk[n - 1 + 1]));
        let k = choose|k: int| 0 <= k < edges.len() && edges[k] == walk[n];
        assert(seen[g[walk[n - 1]][k]]);
    }
}

/// How many nodes are not seen yet.
spec fn unseen(seen: Seq<bool>) -> nat
    decreases seen.len(),
{
    if seen.len() == 0 {
        0
    } else {
        unseen(seen.drop_last()) + (if seen.last() {
            0nat
        } else {
            1nat
        })
    }
}

proof fn lemma_unseen_update(seen: Seq<bool>, i: int)
    requires
        0 <= i < seen.len(),
        !seen[i],
    ensures
        unseen(seen.update(i, true)) < unseen(seen),
    decreases seen.len(),
{
    let now = seen.update(i, true);
    if i == seen.len() - 1 {
        assert(now.drop_last() =~= seen.drop_last());
    } else {
        lemma_unseen_update(seen.drop_last(), i);
        assert(now.drop_last() =~= seen.drop_last().update(i, true));
    }
}

/// Adding the edge from `consumer` to `producer` would close a cycle: they are
/// the same track, or `producer` depends on `consumer` already. Ids that no
/// track has close none.
pub open spec fn closes_cycle(ids: Seq<u32>, g: Seq<Seq<int>>, consumer: u32, producer: u32) -> bool {
    ||| consumer == producer
    ||| match (id_index(ids, consumer), id_index(ids, producer)) {
        (Some(c), Some(p)) => reaches(g, p, c),
        _ => false,
    }
}

impl TrackDeps {
    /// Whether the track `consumer` depending on the track `producer` as well
    /// would close a cycle.
    pub fn would_cycle(&self, consumer: u32, producer: u32) -> (r: bool)
        requires
            self.valid(),
        ensures
            r == closes_cycle(self.ids(), self.graph(), consumer, producer),
    {
        broadcast use vstd::std_specs::hash::group_hash_axioms;

        if consumer == producer {
            return true;
        }
        let ghost g = self.graph();
        proof {
            assert(self.index@.contains_key(consumer) || !self.index@.contains_key(consumer));
            assert(self.index@.contains_key(producer) || !self.index@.contains_key(producer));
            lemma_id_index_bound(self.ids@, consumer);
            lemma_id_index_bound(self.ids@, producer);
        }
        let c: usize = match self.index.get(&consumer) {
            Some(c) => *c,
            None => {
                return false;
            },
        };
        let p: usize = match self.index.get(&producer) {
            Some(p) => *p,
            None => {
                return false;
            },
        };
        let n: usize = self.ids.len();
        let mut seen: Vec<bool> = Vec::new();
        let mut k: usize = 0;
        while k < n
            invariant
                k <= n,
                seen@.len() == k,
                forall|v: int| 0 <= v < k ==> !#[trigger] seen@[v],
            decreases n - k,
        {
            seen.push(false);
            k += 1;
        }
        let mut stack: Vec<usize> = Vec::new();
        stack.push(p);
        proof {
            let walk = seq![p as int];
            assert(is_walk(g, walk));
            assert(walk[0] == p && walk.last() == p);
            assert(reaches(g, p as int, p as int));
            assert(stack@[0] == p);
        }
        while stack.len() > 0
            invariant
                self.valid(),
                g == self.graph(),
                n == g.len(),
                n == self.deps@.len(),
                p < n,
                c < n,
                id_index(self.ids@, consumer) == Some(c as int),
                id_index(self.ids@, producer) == Some(p as int),
                seen@.len() == n,
                !seen@[c as int],
                seen@[p as int] || stack@.contains(p),
                forall|i: int| 0 <= i < stack@.len() ==> #[trigger] stack@[i] < n && reaches(g, p as int, stack@[i] as int),
                forall|u: int, k: int|
                    0 <= u < g.len() && seen@[u] && 0 <= k < g[u].len() ==> seen@[#[trigger] g[u][k]] || stack@.contains(
                        g[u][k] as usize,
                    ),
            decreases unseen(seen@), stack@.len(),
        {
            let ghost before = stack@;
            let top: usize = stack.len() - 1;
            let node: usize = stack[top];
            stack.pop();
            proof {
                assert(before.last() == node);
                assert(before =~= stack@.push(node));
                assert(reaches(g, p as int, node as int));
            }
            if node == c {
                return true;
            }
            if seen[node] {
                proof {
                    assert forall|x: usize| before.contains(x) && x != node implies stack@.contains(x) by {
                        let q = choose|q: int| 0 <= q < before.len() && before[q] == x;
                        assert(stack@[q] == x);
                    }
                }
                continue;
            }
            let ghost seen_before = seen@;
            seen.set(node, true);
            proof {
                lemma_unseen_update(seen_before, node as int);
            }
            let ghost base = stack@;
            let deps = &self.deps[node];
            assert(g[node as int] == places(deps@));
            let mut k: usize = 0;
            while k < deps.len()
                invariant
                    self.valid(),
                    g == self.graph(),
                    n == g.len(),
                    node < n,
                    k <= deps@.len(),
                    g[node as int] == places(deps@),
                    reaches(g, p as int, node as int),
                    base.len() <= stack@.len(),
                    forall|i: int| 0 <= i < base.len() ==> #[trigger] stack@[i] == base[i],
                    forall|i: int|
                        0 <= i < stack@.len() ==> #[trigger] stack@[i] < n && reaches(g, p as int, stack@[i] as int),
                    forall|j: int| 0 <= j < k ==> stack@.contains(#[trigger] deps@[j]),
                decreases deps@.len() - k,
            {
                let ghost prev = stack@;
                proof {
                    assert(g[node as int][k as int] == deps@[k as int]);
                    assert(0 <= g[node as int][k as int] < g.len());
                    assert(g[node as int].contains(deps@[k as int] as int));
                    lemma_reaches_step(g, p as int, node as int, deps@[k as int] as int);
                }
                stack.push(deps[k]);
                proof {
                    assert forall|j: int| 0 <= j < k + 1 implies stack@.contains(#[trigger] deps@[j]) by {
                        if j < k {
                            let q = choose|q: int| 0 <= q < prev.len() && prev[q] == deps@[j];
                            assert(stack@[q] == deps@[j]);
                        } else {
                            assert(stack@[prev.len() as int] == deps@[j]);
                        }
                    }
                }
                k += 1;
            }
            proof {
                assert forall|x: usize| base.contains(x) implies stack@.contains(x) by {
                    let q = choose|q: int| 0 <= q < base.len() && base[q] == x;
                    assert(stack@[q] == x);
                }
                assert forall|x: usize| before.contains(x) && x != node implies base.contains(x) by {
                    let q = choose|q: int| 0 <= q < before.len() && before[q] == x;
                    assert(base[q] == x);
                }
                assert forall|u: int, k: int| 0 <= u < g.len() && seen@[u] && 0 <= k < g[u].len() implies seen@[
                #[trigger] g[u][k]] || stack@.contains(g[u][k] as usize) by {
                    assert(0 <= g[u][k] < g.len());
                    if u == node {
                        assert(g[u][k] == deps@[k]);
                    } else {
                        assert(seen_before[u]);
                        assert(seen_before[g[u][k]] || before.contains(g[u][k] as usize));
                    }
                }
            }
        }
        proof {
            if reaches(g, p as int, c as int) {
                let walk = choose|walk: Seq<int>| #[trigger] is_walk(g, walk) && walk[0] == p as int && walk.last()
                    == c as int;
                assert forall|u: int, k: int| 0 <= u < g.len() && seen@[u] && 0 <= k < g[u].len() implies seen@[
                #[trigger] g[u][k]] by {
                    assert(0 <= g[u][k] < g.len());
                }
                lemma_closed_reaches(g, seen@, walk, walk.len() - 1);
            }
        }
        false
    }
}

} // verus!
