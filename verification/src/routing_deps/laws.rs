//! What the guarded edits keep: wiring without cycles stays without cycles.

use super::consumers;
use super::consumers::ConsumerModel;
use super::edit;
use super::graph;
use super::graph::EdgeScope;
use super::moving;
use crate::model::lookup;
use crate::model::track_enable;
use crate::model::{
    AuxInputRoute, ChainModel, DeviceModel, LaneModel, ModRouting, Send, SongModel, TapSource, TrackModel,
    MASTER_TRACK_ID,
};
use vstd::prelude::*;

verus! {

// ---------------------------------------------------------------------------
// Dependence as a relation between two tracks
// ---------------------------------------------------------------------------

/// Every track has an id of its own.
pub open spec fn names_ok(tracks: Seq<TrackModel>) -> bool {
    &&& forall|i: int| 0 <= i < tracks.len() ==> (#[trigger] tracks[i]).id != 0
    &&& forall|i: int, j: int|
        0 <= i < tracks.len() && 0 <= j < tracks.len() && (#[trigger] tracks[i]).id == (#[trigger] tracks[j]).id
            ==> i == j
}

/// Track ids are assigned and distinct, and a chain is on one track only.
pub open spec fn ids_ok(tracks: Seq<TrackModel>) -> bool {
    &&& names_ok(tracks)
    &&& forall|i: int| 0 <= i < tracks.len() ==> (#[trigger] tracks[i]).id != MASTER_TRACK_ID
    &&& forall|i: int, j: int, chain: u64|
        0 <= i < tracks.len() && 0 <= j < tracks.len() && (#[trigger] graph::chain_ids(tracks[i].devices).contains(
            chain,
        )) && (#[trigger] graph::chain_ids(tracks[j].devices).contains(chain)) ==> i == j
}

/// Whether a tap on `source` reads the track `b`.
pub open spec fn reads(source: TapSource, b: TrackModel) -> bool {
    match source {
        TapSource::Track(id) => id == b.id,
        TapSource::Chain(chain) => graph::chain_ids(b.devices).contains(chain),
    }
}

/// Whether a consumer that counts has a port that reads the track `b`.
pub open spec fn consumer_reads(c: ConsumerModel, b: TrackModel, scope: EdgeScope) -> bool {
    &&& !(scope == EdgeScope::Active && c.inactive)
    &&& exists|p: int|
        0 <= p < c.routes.len() && (#[trigger] c.routes[p]) is Some && reads(c.routes[p]->0.tap.source, b)
}

/// Whether the track `a` depends on the track `b`: `b` is its child, one of its
/// side chains reads `b`, or `b` sends to it.
pub open spec fn depends(a: TrackModel, b: TrackModel, scope: EdgeScope) -> bool {
    ||| b.parent_group_id == Some(a.id)
    ||| a.id != b.id && exists|c: int|
        0 <= c < graph::track_consumers(a).len() && consumer_reads(#[trigger] graph::track_consumers(a)[c], b, scope)
    ||| exists|s: int| 0 <= s < b.sends.len() && (#[trigger] b.sends[s]).dest_track_id == a.id
}

proof fn lemma_id_index_iff(tracks: Seq<TrackModel>, id: u32, i: int, n: nat)
    requires
        names_ok(tracks),
        n <= tracks.len(),
        0 <= i < tracks.len(),
    ensures
        graph::id_index(graph::track_ids(tracks).take(n as int), id) == Some(i) <==> (i < n && tracks[i].id == id),
    decreases n,
{
    let ids = graph::track_ids(tracks).take(n as int);
    if n > 0 {
        assert(ids.drop_last() =~= graph::track_ids(tracks).take(n - 1));
        assert(ids.last() == tracks[n - 1].id);
        lemma_id_index_iff(tracks, id, i, (n - 1) as nat);
        if tracks[i].id == id && i < n && ids.last() == id {
            assert(tracks[n - 1].id == tracks[i].id);
        }
    }
}

proof fn lemma_chain_owner_iff(tracks: Seq<TrackModel>, chain: u64, i: int, n: nat)
    requires
        ids_ok(tracks),
        n <= tracks.len(),
        0 <= i < tracks.len(),
    ensures
        graph::chain_owner(tracks.take(n as int), chain) == Some(i) <==> (i < n && graph::chain_ids(
            tracks[i].devices,
        ).contains(chain)),
    decreases n,
{
    let t = tracks.take(n as int);
    if n > 0 {
        assert(t.drop_last() =~= tracks.take(n - 1));
        assert(t.last() == tracks[n - 1]);
        lemma_chain_owner_iff(tracks, chain, i, (n - 1) as nat);
    }
}

proof fn lemma_source_iff(tracks: Seq<TrackModel>, source: TapSource, j: int)
    requires
        ids_ok(tracks),
        0 <= j < tracks.len(),
    ensures
        graph::source_track(tracks, source) == Some(j) <==> reads(source, tracks[j]),
{
    match source {
        TapSource::Track(id) => {
            assert(graph::track_ids(tracks).take(tracks.len() as int) =~= graph::track_ids(tracks));
            lemma_id_index_iff(tracks, id, j, tracks.len());
        },
        TapSource::Chain(chain) => {
            assert(tracks.take(tracks.len() as int) =~= tracks);
            lemma_chain_owner_iff(tracks, chain, j, tracks.len());
        },
    }
}

proof fn lemma_children_iff(tracks: Seq<TrackModel>, i: int, j: int, n: nat)
    requires
        ids_ok(tracks),
        n <= tracks.len(),
        0 <= i < tracks.len(),
        0 <= j < tracks.len(),
    ensures
        graph::children(tracks, i, n).contains(j) <==> (j < n && tracks[j].parent_group_id == Some(tracks[i].id)),
    decreases n,
{
    let s = graph::children(tracks, i, n);
    if n == 0 {
        assert(!s.contains(j));
    } else {
        lemma_children_iff(tracks, i, j, (n - 1) as nat);
        let before = graph::children(tracks, i, (n - 1) as nat);
        assert(graph::track_ids(tracks).take(tracks.len() as int) =~= graph::track_ids(tracks));
        if let Some(parent) = tracks[n - 1].parent_group_id {
            lemma_id_index_iff(tracks, parent, i, tracks.len());
            if graph::id_index(graph::track_ids(tracks), parent) == Some(i) {
                assert(s == before.push(n - 1));
                lemma_push_contains(before, n - 1, j);
            }
        }
    }
}

proof fn lemma_push_contains(s: Seq<int>, x: int, j: int)
    ensures
        s.push(x).contains(j) <==> (s.contains(j) || j == x),
{
    let t = s.push(x);
    if s.contains(j) {
        let q = choose|q: int| 0 <= q < s.len() && s[q] == j;
        assert(t[q] == j);
    }
    if j == x {
        assert(t[s.len() as int] == j);
    }
    if t.contains(j) && j != x {
        let q = choose|q: int| 0 <= q < t.len() && t[q] == j;
        assert(s[q] == j);
    }
}

proof fn lemma_add_contains(a: Seq<int>, b: Seq<int>, j: int)
    ensures
        (a + b).contains(j) <==> (a.contains(j) || b.contains(j)),
{
    let t = a + b;
    if a.contains(j) {
        let q = choose|q: int| 0 <= q < a.len() && a[q] == j;
        assert(t[q] == j);
    }
    if b.contains(j) {
        let q = choose|q: int| 0 <= q < b.len() && b[q] == j;
        assert(t[a.len() + q] == j);
    }
    if t.contains(j) {
        let q = choose|q: int| 0 <= q < t.len() && t[q] == j;
        if q < a.len() {
            assert(a[q] == j);
        } else {
            assert(b[q - a.len()] == j);
        }
    }
}

proof fn lemma_route_sources_iff(tracks: Seq<TrackModel>, i: int, routes: Seq<Option<AuxInputRoute>>, j: int)
    requires
        ids_ok(tracks),
        0 <= i < tracks.len(),
        0 <= j < tracks.len(),
    ensures
        graph::route_sources(tracks, i, routes).contains(j) <==> (j != i && exists|p: int|
            0 <= p < routes.len() && (#[trigger] routes[p]) is Some && reads(routes[p]->0.tap.source, tracks[j])),
    decreases routes.len(),
{
    let s = graph::route_sources(tracks, i, routes);
    if routes.len() == 0 {
        assert(!s.contains(j));
    } else {
        let init = routes.drop_last();
        lemma_route_sources_iff(tracks, i, init, j);
        let before = graph::route_sources(tracks, i, init);
        if let Some(route) = routes.last() {
            lemma_source_iff(tracks, route.tap.source, j);
            if let Some(q) = graph::source_track(tracks, route.tap.source) {
                if q != i {
                    lemma_push_contains(before, q, j);
                }
            }
        }
        // The ports are those before the last one and the last one.
        if exists|p: int|
            0 <= p < routes.len() && (#[trigger] routes[p]) is Some && reads(routes[p]->0.tap.source, tracks[j]) {
            let p = choose|p: int|
                0 <= p < routes.len() && (#[trigger] routes[p]) is Some && reads(routes[p]->0.tap.source, tracks[j]);
            if p < init.len() {
                assert(init[p] == routes[p]);
            }
        }
        if exists|p: int|
            0 <= p < init.len() && (#[trigger] init[p]) is Some && reads(init[p]->0.tap.source, tracks[j]) {
            let p = choose|p: int|
                0 <= p < init.len() && (#[trigger] init[p]) is Some && reads(init[p]->0.tap.source, tracks[j]);
            assert(routes[p] == init[p]);
        }
        if routes.last() is Some && reads(routes.last()->0.tap.source, tracks[j]) {
            assert(routes[routes.len() - 1] is Some);
        }
    }
}

proof fn lemma_consumer_sources_iff(tracks: Seq<TrackModel>, i: int, cs: Seq<ConsumerModel>, scope: EdgeScope, j: int)
    requires
        ids_ok(tracks),
        0 <= i < tracks.len(),
        0 <= j < tracks.len(),
    ensures
        graph::consumer_sources(tracks, i, cs, scope).contains(j) <==> (j != i && exists|c: int|
            0 <= c < cs.len() && consumer_reads(#[trigger] cs[c], tracks[j], scope)),
    decreases cs.len(),
{
    let s = graph::consumer_sources(tracks, i, cs, scope);
    if cs.len() == 0 {
        assert(!s.contains(j));
    } else {
        let init = cs.drop_last();
        lemma_consumer_sources_iff(tracks, i, init, scope, j);
        lemma_route_sources_iff(tracks, i, cs.last().routes, j);
        lemma_add_contains(
            graph::consumer_sources(tracks, i, init, scope),
            graph::route_sources(tracks, i, cs.last().routes),
            j,
        );
        if exists|c: int| 0 <= c < cs.len() && consumer_reads(#[trigger] cs[c], tracks[j], scope) {
            let c = choose|c: int| 0 <= c < cs.len() && consumer_reads(#[trigger] cs[c], tracks[j], scope);
            if c < init.len() {
                assert(init[c] == cs[c]);
            }
        }
        if exists|c: int| 0 <= c < init.len() && consumer_reads(#[trigger] init[c], tracks[j], scope) {
            let c = choose|c: int| 0 <= c < init.len() && consumer_reads(#[trigger] init[c], tracks[j], scope);
            assert(cs[c] == init[c]);
        }
        if consumer_reads(cs.last(), tracks[j], scope) {
            assert(cs[cs.len() - 1] == cs.last());
        }
    }
}

proof fn lemma_send_edges_iff(tracks: Seq<TrackModel>, i: int, src: int, sends: Seq<Send>, j: int)
    requires
        ids_ok(tracks),
        0 <= i < tracks.len(),
    ensures
        graph::send_edges(graph::track_ids(tracks), i, src, sends).contains(j) <==> (j == src && exists|s: int|
            0 <= s < sends.len() && (#[trigger] sends[s]).dest_track_id == tracks[i].id),
    decreases sends.len(),
{
    let ids = graph::track_ids(tracks);
    let e = graph::send_edges(ids, i, src, sends);
    if sends.len() == 0 {
        assert(!e.contains(j));
    } else {
        let init = sends.drop_last();
        lemma_send_edges_iff(tracks, i, src, init, j);
        assert(ids.take(tracks.len() as int) =~= ids);
        lemma_id_index_iff(tracks, sends.last().dest_track_id, i, tracks.len());
        lemma_push_contains(graph::send_edges(ids, i, src, init), src, j);
        if exists|s: int| 0 <= s < sends.len() && (#[trigger] sends[s]).dest_track_id == tracks[i].id {
            let s = choose|s: int| 0 <= s < sends.len() && (#[trigger] sends[s]).dest_track_id == tracks[i].id;
            if s < init.len() {
                assert(init[s] == sends[s]);
            }
        }
        if exists|s: int| 0 <= s < init.len() && (#[trigger] init[s]).dest_track_id == tracks[i].id {
            let s = choose|s: int| 0 <= s < init.len() && (#[trigger] init[s]).dest_track_id == tracks[i].id;
            assert(sends[s] == init[s]);
        }
        if sends.last().dest_track_id == tracks[i].id {
            assert(sends[sends.len() - 1].dest_track_id == tracks[i].id);
        }
    }
}

proof fn lemma_send_sources_iff(tracks: Seq<TrackModel>, i: int, n: nat, j: int)
    requires
        ids_ok(tracks),
        n <= tracks.len(),
        0 <= i < tracks.len(),
        0 <= j < tracks.len(),
    ensures
        graph::send_sources(tracks, i, n).contains(j) <==> (j < n && exists|s: int|
            0 <= s < tracks[j].sends.len() && (#[trigger] tracks[j].sends[s]).dest_track_id == tracks[i].id),
    decreases n,
{
    if n == 0 {
        assert(!graph::send_sources(tracks, i, n).contains(j));
    } else {
        lemma_send_sources_iff(tracks, i, (n - 1) as nat, j);
        lemma_send_edges_iff(tracks, i, n - 1, tracks[n - 1].sends, j);
        lemma_add_contains(
            graph::send_sources(tracks, i, (n - 1) as nat),
            graph::send_edges(graph::track_ids(tracks), i, n - 1, tracks[n - 1].sends),
            j,
        );
    }
}

/// With distinct ids, the edges of the graph are the pairs of tracks of which
/// one depends on the other: a child, a side chain that reads it, a send from it.
pub proof fn law_edges_are_dependences(tracks: Seq<TrackModel>, scope: EdgeScope, i: int, j: int)
    requires
        ids_ok(tracks),
        0 <= i < tracks.len(),
        0 <= j < tracks.len(),
    ensures
        graph::song_graph(tracks, scope)[i].contains(j) <==> depends(tracks[i], tracks[j], scope),
{
    lemma_children_iff(tracks, i, j, tracks.len());
    lemma_consumer_sources_iff(tracks, i, graph::track_consumers(tracks[i]), scope, j);
    lemma_send_sources_iff(tracks, i, tracks.len(), j);
    let a = graph::children(tracks, i, tracks.len());
    let b = graph::consumer_sources(tracks, i, graph::track_consumers(tracks[i]), scope);
    let c = graph::send_sources(tracks, i, tracks.len());
    lemma_add_contains(a, b, j);
    lemma_add_contains(a + b, c, j);
    if tracks[i].id == tracks[j].id {
        assert(i == j);
    }
}

// ---------------------------------------------------------------------------
// Adding edges out of one node
// ---------------------------------------------------------------------------

/// Where each node of `h` is found in `g`.
pub open spec fn renaming_ok(names: Seq<int>, h: Seq<Seq<int>>, g: Seq<Seq<int>>) -> bool {
    &&& names.len() == h.len()
    &&& forall|i: int| 0 <= i < names.len() ==> 0 <= #[trigger] names[i] < g.len()
}

/// Every edge of `h` is one of `g` under other names, or leads from `hub` to a
/// node that does not reach `hub` in `g`.
pub open spec fn edges_extend(names: Seq<int>, h: Seq<Seq<int>>, g: Seq<Seq<int>>, hub: int) -> bool {
    forall|i: int, j: int|
        0 <= i < h.len() && 0 <= j < h.len() && #[trigger] h[i].contains(j) ==> g[names[i]].contains(names[j]) || (
        names[i] == hub && !graph::reaches(g, names[j], hub))
}

/// The walk under the names of `g`.
spec fn renamed(names: Seq<int>, walk: Seq<int>) -> Seq<int> {
    Seq::new(walk.len(), |i: int| names[walk[i]])
}

/// From a node that does not reach the hub, the walk never meets the hub.
proof fn lemma_never_meets(
    names: Seq<int>,
    h: Seq<Seq<int>>,
    g: Seq<Seq<int>>,
    hub: int,
    walk: Seq<int>,
    start: int,
    n: int,
)
    requires
        graph::graph_ok(g),
        renaming_ok(names, h, g),
        edges_extend(names, h, g, hub),
        graph::is_walk(h, walk),
        0 <= start <= n < walk.len(),
        !graph::reaches(g, names[walk[start]], hub),
    ensures
        graph::reaches(g, names[walk[start]], names[walk[n]]),
        names[walk[n]] != hub,
    decreases n - start,
{
    assert(0 <= walk[start] < h.len());
    if n == start {
        let w = seq![names[walk[start]]];
        assert(graph::is_walk(g, w));
        assert(w[0] == names[walk[start]] && w.last() == names[walk[start]]);
    } else {
        lemma_never_meets(names, h, g, hub, walk, start, n - 1);
        assert(h[walk[n - 1]].contains(walk[n - 1 + 1]));
        assert(0 <= walk[n - 1] < h.len() && 0 <= walk[n] < h.len());
        assert(g[names[walk[n - 1]]].contains(names[walk[n]]));
        graph::lemma_reaches_step(g, names[walk[start]], names[walk[n - 1]], names[walk[n]]);
    }
}

/// Adding edges out of one node to nodes that do not reach it, and removing
/// edges, makes no cycle.
pub proof fn law_hub_edges_make_no_cycle(names: Seq<int>, h: Seq<Seq<int>>, g: Seq<Seq<int>>, hub: int)
    requires
        graph::graph_ok(g),
        renaming_ok(names, h, g),
        edges_extend(names, h, g, hub),
        !graph::has_cycle(g),
    ensures
        !graph::has_cycle(h),
{
    if graph::has_cycle(h) {
        let walk = choose|walk: Seq<int>|
            #[trigger] graph::is_walk(h, walk) && walk.len() >= 2 && walk[0] == walk.last();
        if exists|i: int|
            0 <= i < walk.len() - 1 && names[#[trigger] walk[i]] == hub && !graph::reaches(g, names[walk[i + 1]], hub) {
            let i = choose|i: int|
                0 <= i < walk.len() - 1 && names[#[trigger] walk[i]] == hub && !graph::reaches(
                    g,
                    names[walk[i + 1]],
                    hub,
                );
            // Follow the cycle from behind the added edge until it closes: it never
            // comes back to the hub.
            let last = walk.len() - 1;
            lemma_never_meets(names, h, g, hub, walk, i + 1, last);
            // From the start of the cycle on.
            if i > 0 {
                let from = names[walk[i + 1]];
                assert(graph::reaches(g, from, names[walk[0]]));
                lemma_reaches_along(names, h, g, hub, walk, from, i);
            }
        } else {
            let w = renamed(names, walk);
            assert forall|i: int| #![trigger w[i]] 0 <= i < w.len() - 1 implies g[w[i]].contains(w[i + 1]) by {
                assert(h[walk[i]].contains(walk[i + 1]));
                assert(0 <= walk[i] < h.len() && 0 <= walk[i + 1] < h.len());
                assert(names[walk[i]] == w[i]);
            }
            assert forall|i: int| 0 <= i < w.len() implies 0 <= #[trigger] w[i] < g.len() by {
                assert(0 <= walk[i] < h.len());
            }
            assert(graph::is_walk(g, w));
            assert(w[0] == w.last());
        }
    }
}

/// A node that does not reach the hub and reaches the start of the walk does not
/// meet the hub along the walk.
proof fn lemma_reaches_along(
    names: Seq<int>,
    h: Seq<Seq<int>>,
    g: Seq<Seq<int>>,
    hub: int,
    walk: Seq<int>,
    from: int,
    n: int,
)
    requires
        graph::graph_ok(g),
        renaming_ok(names, h, g),
        edges_extend(names, h, g, hub),
        graph::is_walk(h, walk),
        0 <= n < walk.len(),
        !graph::reaches(g, from, hub),
        graph::reaches(g, from, names[walk[0]]),
    ensures
        graph::reaches(g, from, names[walk[n]]),
        names[walk[n]] != hub,
    decreases n,
{
    assert(0 <= walk[n] < h.len());
    if n > 0 {
        lemma_reaches_along(names, h, g, hub, walk, from, n - 1);
        assert(h[walk[n - 1]].contains(walk[n - 1 + 1]));
        assert(0 <= walk[n - 1] < h.len());
        assert(g[names[walk[n - 1]]].contains(names[walk[n]]));
        graph::lemma_reaches_step(g, from, names[walk[n - 1]], names[walk[n]]);
    }
}

// ---------------------------------------------------------------------------
// What a device tree reads
// ---------------------------------------------------------------------------

/// Whether a port that is wired reads the track `b`.
pub open spec fn route_reads(route: Option<AuxInputRoute>, b: TrackModel) -> bool {
    route matches Some(r) && reads(r.tap.source, b)
}

/// Whether a device, or one inside it, is wired to the track `b`.
pub open spec fn device_reads(d: DeviceModel, b: TrackModel) -> bool
    decreases d,
{
    match d {
        DeviceModel::Plugin(p) => exists|k: int|
            0 <= k < p.aux_inputs.len() && route_reads(#[trigger] p.aux_inputs[k], b),
        DeviceModel::Native(n) => n.has_sidechain() && route_reads(n.aux_input, b),
        DeviceModel::Parallel { id: _, chains } => chains_read(chains, b),
    }
}

/// Whether a device inside the chains of a rack is wired to the track `b`.
pub open spec fn chains_read(chains: Seq<ChainModel>, b: TrackModel) -> bool
    decreases chains,
{
    chains.len() > 0 && (list_reads(chains[0].devices, b) || chains_read(chains.drop_first(), b))
}

/// Whether a device of a chain is wired to the track `b`.
pub open spec fn list_reads(devices: Seq<DeviceModel>, b: TrackModel) -> bool
    decreases devices,
{
    devices.len() > 0 && (device_reads(devices[0], b) || list_reads(devices.drop_first(), b))
}

/// Whether one of the consumers is wired to the track `b`.
spec fn some_read(cs: Seq<ConsumerModel>, b: TrackModel) -> bool {
    exists|c: int| 0 <= c < cs.len() && consumer_reads(#[trigger] cs[c], b, EdgeScope::Wired)
}

proof fn lemma_some_read_add(x: Seq<ConsumerModel>, y: Seq<ConsumerModel>, b: TrackModel)
    ensures
        some_read(x + y, b) <==> (some_read(x, b) || some_read(y, b)),
{
    let t = x + y;
    if some_read(x, b) {
        let c = choose|c: int| 0 <= c < x.len() && consumer_reads(#[trigger] x[c], b, EdgeScope::Wired);
        assert(t[c] == x[c]);
    }
    if some_read(y, b) {
        let c = choose|c: int| 0 <= c < y.len() && consumer_reads(#[trigger] y[c], b, EdgeScope::Wired);
        assert(t[x.len() + c] == y[c]);
    }
    if some_read(t, b) {
        let c = choose|c: int| 0 <= c < t.len() && consumer_reads(#[trigger] t[c], b, EdgeScope::Wired);
        if c < x.len() {
            assert(x[c] == t[c]);
        } else {
            assert(y[c - x.len()] == t[c]);
        }
    }
}

proof fn lemma_device_reads(d: DeviceModel, lanes: Seq<LaneModel>, routings: Seq<ModRouting>, top: u32, b: TrackModel)
    ensures
        some_read(consumers::device_consumers(d, lanes, routings, top), b) <==> device_reads(d, b),
    decreases d,
{
    let cs = consumers::device_consumers(d, lanes, routings, top);
    match d {
        DeviceModel::Parallel { id, chains } => {
            assert(cs == consumers::chain_consumers(chains, lanes, routings, top));
            lemma_chains_read(chains, lanes, routings, top, b);
        },
        DeviceModel::Plugin(p) => {
            if consumers::any_wired(p.aux_inputs) {
                assert(cs.len() == 1);
                assert(cs[0].routes == p.aux_inputs);
                if device_reads(d, b) {
                    let k = choose|k: int| 0 <= k < p.aux_inputs.len() && route_reads(#[trigger] p.aux_inputs[k], b);
                    assert(cs[0].routes[k] is Some);
                    assert(consumer_reads(cs[0], b, EdgeScope::Wired));
                }
                if some_read(cs, b) {
                    let k = choose|k: int|
                        0 <= k < cs[0].routes.len() && (#[trigger] cs[0].routes[k]) is Some && reads(
                            cs[0].routes[k]->0.tap.source,
                            b,
                        );
                    assert(route_reads(p.aux_inputs[k], b));
                }
            } else {
                assert(cs.len() == 0);
            }
        },
        DeviceModel::Native(n) => {
            if n.has_sidechain() && n.aux_input is Some {
                assert(cs.len() == 1);
                assert(cs[0].routes =~= seq![n.aux_input]);
                assert(cs[0].routes[0] == n.aux_input);
                if device_reads(d, b) {
                    assert(consumer_reads(cs[0], b, EdgeScope::Wired));
                }
            } else {
                assert(cs.len() == 0);
            }
        },
    }
}

proof fn lemma_chains_read(
    chains: Seq<ChainModel>,
    lanes: Seq<LaneModel>,
    routings: Seq<ModRouting>,
    top: u32,
    b: TrackModel,
)
    ensures
        some_read(consumers::chain_consumers(chains, lanes, routings, top), b) <==> chains_read(chains, b),
    decreases chains,
{
    if chains.len() > 0 {
        lemma_list_reads(chains[0].devices, lanes, routings, top, b);
        lemma_chains_read(chains.drop_first(), lanes, routings, top, b);
        lemma_some_read_add(
            consumers::list_consumers(chains[0].devices, lanes, routings, top),
            consumers::chain_consumers(chains.drop_first(), lanes, routings, top),
            b,
        );
    }
}

proof fn lemma_list_reads(
    devices: Seq<DeviceModel>,
    lanes: Seq<LaneModel>,
    routings: Seq<ModRouting>,
    top: u32,
    b: TrackModel,
)
    ensures
        some_read(consumers::list_consumers(devices, lanes, routings, top), b) <==> list_reads(devices, b),
    decreases devices,
{
    if devices.len() > 0 {
        lemma_device_reads(devices[0], lanes, routings, top, b);
        lemma_list_reads(devices.drop_first(), lanes, routings, top, b);
        lemma_some_read_add(
            consumers::device_consumers(devices[0], lanes, routings, top),
            consumers::list_consumers(devices.drop_first(), lanes, routings, top),
            b,
        );
    }
}

proof fn lemma_top_reads(
    devices: Seq<DeviceModel>,
    lanes: Seq<LaneModel>,
    routings: Seq<ModRouting>,
    from: nat,
    b: TrackModel,
)
    requires
        from <= devices.len(),
    ensures
        some_read(consumers::consumers_from(devices, lanes, routings, from), b) <==> list_reads(
            devices.skip(from as int),
            b,
        ),
    decreases devices.len() - from,
{
    if from < devices.len() {
        lemma_device_reads(devices[from as int], lanes, routings, from as u32, b);
        lemma_top_reads(devices, lanes, routings, from + 1, b);
        assert(devices.skip(from as int).drop_first() =~= devices.skip((from + 1) as int));
        lemma_some_read_add(
            consumers::device_consumers(devices[from as int], lanes, routings, from as u32),
            consumers::consumers_from(devices, lanes, routings, from + 1),
            b,
        );
    }
}

/// Dependence through wired devices, whatever can be switched on.
proof fn lemma_depends_wired(a: TrackModel, b: TrackModel)
    ensures
        depends(a, b, EdgeScope::Wired) <==> (b.parent_group_id == Some(a.id) || (a.id != b.id && list_reads(
            a.devices,
            b,
        )) || exists|s: int| 0 <= s < b.sends.len() && (#[trigger] b.sends[s]).dest_track_id == a.id),
{
    lemma_top_reads(a.devices, a.automation_lanes, a.mod_routings, 0, b);
    assert(a.devices.skip(0) =~= a.devices);
    let cs = graph::track_consumers(a);
    if some_read(cs, b) {
        let c = choose|c: int| 0 <= c < cs.len() && consumer_reads(#[trigger] cs[c], b, EdgeScope::Wired);
        assert(consumer_reads(graph::track_consumers(a)[c], b, EdgeScope::Wired));
    }
    if exists|c: int|
        0 <= c < graph::track_consumers(a).len() && consumer_reads(
            #[trigger] graph::track_consumers(a)[c],
            b,
            EdgeScope::Wired,
        ) {
        let c = choose|c: int|
            0 <= c < graph::track_consumers(a).len() && consumer_reads(
                #[trigger] graph::track_consumers(a)[c],
                b,
                EdgeScope::Wired,
            );
        assert(consumer_reads(cs[c], b, EdgeScope::Wired));
    }
}

// ---------------------------------------------------------------------------
// Rewiring
// ---------------------------------------------------------------------------

proof fn lemma_with_route_reads(d: DeviceModel, port: u8, next: Option<AuxInputRoute>, b: TrackModel)
    ensures
        device_reads(edit::with_route(d, port, next), b) ==> device_reads(d, b) || route_reads(next, b),
{
    match d {
        DeviceModel::Plugin(p) => {
            let w = edit::padded(p.aux_inputs, port + 1).update(port as int, next);
            if device_reads(edit::with_route(d, port, next), b) {
                let k = choose|k: int| 0 <= k < w.len() && route_reads(#[trigger] w[k], b);
                if k != port {
                    assert(k < p.aux_inputs.len());
                    assert(route_reads(p.aux_inputs[k], b));
                }
            }
        },
        _ => {},
    }
}

proof fn lemma_device_write_reads(d: DeviceModel, id: u64, port: u8, next: Option<AuxInputRoute>, b: TrackModel)
    ensures
        device_reads(edit::device_write(d, id, port, next), b) ==> device_reads(d, b) || route_reads(next, b),
        graph::device_chain_ids(edit::device_write(d, id, port, next)) == graph::device_chain_ids(d),
    decreases d,
{
    if d.id() == id {
        lemma_with_route_reads(d, port, next, b);
    } else {
        match d {
            DeviceModel::Parallel { id: own, chains } => {
                lemma_chains_write_reads(chains, id, port, next, b);
                let e = DeviceModel::Parallel { id: own, chains: edit::chains_write(chains, id, port, next) };
                assert(edit::device_write(d, id, port, next) == e);
                assert(device_reads(e, b) == chains_read(edit::chains_write(chains, id, port, next), b));
                assert(device_reads(d, b) == chains_read(chains, b));
                assert(graph::device_chain_ids(e) == graph::chains_chain_ids(
                    edit::chains_write(chains, id, port, next),
                ));
                assert(graph::device_chain_ids(d) == graph::chains_chain_ids(chains));
            },
            _ => {},
        }
    }
}

proof fn lemma_chains_write_reads(
    chains: Seq<ChainModel>,
    id: u64,
    port: u8,
    next: Option<AuxInputRoute>,
    b: TrackModel,
)
    ensures
        chains_read(edit::chains_write(chains, id, port, next), b) ==> chains_read(chains, b) || route_reads(next, b),
        graph::chains_chain_ids(edit::chains_write(chains, id, port, next)) == graph::chains_chain_ids(chains),
    decreases chains,
{
    if chains.len() > 0 {
        let w = edit::chains_write(chains, id, port, next);
        let rest = chains.drop_first();
        lemma_list_write_reads(chains[0].devices, id, port, next, b);
        lemma_chains_write_reads(rest, id, port, next, b);
        lemma_chains_chain_ids_front(chains);
        lemma_chains_chain_ids_front(w);
        if lookup::list_find(chains[0].devices, id) is Some {
            assert(w.drop_first() =~= rest);
        } else {
            assert(w.drop_first() =~= edit::chains_write(rest, id, port, next));
        }
    }
}

proof fn lemma_list_write_reads(
    devices: Seq<DeviceModel>,
    id: u64,
    port: u8,
    next: Option<AuxInputRoute>,
    b: TrackModel,
)
    ensures
        list_reads(edit::list_write(devices, id, port, next), b) ==> list_reads(devices, b) || route_reads(next, b),
        graph::chain_ids(edit::list_write(devices, id, port, next)) == graph::chain_ids(devices),
    decreases devices,
{
    if devices.len() > 0 {
        let w = edit::list_write(devices, id, port, next);
        let rest = devices.drop_first();
        lemma_device_write_reads(devices[0], id, port, next, b);
        lemma_list_write_reads(rest, id, port, next, b);
        lemma_chain_ids_front(devices);
        lemma_chain_ids_front(w);
        if lookup::device_find(devices[0], id) is Some {
            assert(w.drop_first() =~= rest);
        } else {
            assert(w.drop_first() =~= edit::list_write(rest, id, port, next));
        }
    }
}

/// Chain ids, read from the front.
proof fn lemma_chain_ids_front(devices: Seq<DeviceModel>)
    requires
        devices.len() > 0,
    ensures
        graph::chain_ids(devices) == graph::device_chain_ids(devices[0]) + graph::chain_ids(devices.drop_first()),
    decreases devices.len(),
{
    let rest = devices.drop_first();
    if devices.len() == 1 {
        assert(devices.drop_last() =~= Seq::<DeviceModel>::empty());
        assert(rest =~= Seq::<DeviceModel>::empty());
        assert(graph::chain_ids(devices.drop_last()) + graph::device_chain_ids(devices.last())
            =~= graph::device_chain_ids(devices[0]) + graph::chain_ids(rest));
    } else {
        lemma_chain_ids_front(devices.drop_last());
        assert(devices.drop_last().drop_first() =~= rest.drop_last());
        let a = graph::device_chain_ids(devices[0]);
        let m = graph::chain_ids(rest.drop_last());
        let z = graph::device_chain_ids(devices.last());
        assert((a + m) + z =~= a + (m + z));
    }
}

/// Chain ids of a rack, read from the front.
proof fn lemma_chains_chain_ids_front(chains: Seq<ChainModel>)
    requires
        chains.len() > 0,
    ensures
        graph::chains_chain_ids(chains) == seq![chains[0].id] + graph::chain_ids(chains[0].devices)
            + graph::chains_chain_ids(chains.drop_first()),
    decreases chains.len(),
{
    let rest = chains.drop_first();
    let a = seq![chains[0].id] + graph::chain_ids(chains[0].devices);
    if chains.len() == 1 {
        assert(chains.drop_last() =~= Seq::<ChainModel>::empty());
        assert(rest =~= Seq::<ChainModel>::empty());
        assert(graph::chains_chain_ids(chains.drop_last()).push(chains.last().id) + graph::chain_ids(
            chains.last().devices,
        ) =~= a + graph::chains_chain_ids(rest));
    } else {
        lemma_chains_chain_ids_front(chains.drop_last());
        assert(chains.drop_last().drop_first() =~= rest.drop_last());
        let m = graph::chains_chain_ids(rest.drop_last());
        let z = graph::chain_ids(chains.last().devices);
        assert((a + m).push(chains.last().id) + z =~= a + (m.push(chains.last().id) + z));
    }
}

/// The names that stay the same.
spec fn same_names(n: nat) -> Seq<int> {
    Seq::new(n, |i: int| i)
}

proof fn lemma_chain_track(tracks: Seq<TrackModel>, chain: u64, j: int, from: int)
    requires
        ids_ok(tracks),
        0 <= from <= j < tracks.len(),
        graph::chain_ids(tracks[j].devices).contains(chain),
    ensures
        edit::chain_track_from(tracks, chain, from) == Some(tracks[j].id),
    decreases j - from,
{
    if from < j {
        if graph::chain_ids(tracks[from].devices).contains(chain) {
            assert(from == j);
        }
        lemma_chain_track(tracks, chain, j, from + 1);
    }
}

/// A source that is not refused does not reach its reader.
proof fn lemma_accepted_source(song: SongModel, o: int, j: int, source: TapSource)
    requires
        ids_ok(song.tracks),
        0 <= o < song.tracks.len(),
        0 <= j < song.tracks.len(),
        o != j,
        reads(source, song.tracks[j]),
        !song.refuses_source(song.tracks[o].id, Some(source)),
    ensures
        !graph::reaches(graph::song_graph(song.tracks, EdgeScope::Wired), j, o),
{
    let tracks = song.tracks;
    let ids = graph::track_ids(tracks);
    assert(song.producer(source) == Some(tracks[j].id)) by {
        match source {
            TapSource::Track(_) => {},
            TapSource::Chain(chain) => lemma_chain_track(tracks, chain, j, 0),
        }
    }
    assert(tracks[j].id != tracks[o].id);
    assert(ids.take(tracks.len() as int) =~= ids);
    lemma_id_index_iff(tracks, tracks[o].id, o, tracks.len());
    lemma_id_index_iff(tracks, tracks[j].id, j, tracks.len());
}

/// Rewiring one port so that its device reads `next` keeps wiring without
/// cycles if what it reads does not reach it.
proof fn lemma_write_keeps_acyclic(song: SongModel, id: u64, port: u8, next: Option<AuxInputRoute>)
    requires
        ids_ok(song.tracks),
        song.device(id) is Some,
        !graph::has_cycle(graph::song_graph(song.tracks, EdgeScope::Wired)),
        next matches Some(r) ==> !song.refuses_source(song.device_owner(id)->0, Some(r.tap.source)),
    ensures
        ids_ok(song.with_route(id, port, next).tracks),
        !graph::has_cycle(graph::song_graph(song.with_route(id, port, next).tracks, EdgeScope::Wired)),
{
    let tracks = song.tracks;
    let after = song.with_route(id, port, next).tracks;
    match lookup::tracks_find(tracks, id, 0) {
        None => {},
        Some(found) => {
            let o = found.0;
            edit::lemma_tracks_find(tracks, id, 0);
            let g = graph::song_graph(tracks, EdgeScope::Wired);
            let h = graph::song_graph(after, EdgeScope::Wired);
            let names = same_names(tracks.len());
            lemma_list_write_reads(tracks[o].devices, id, port, next, tracks[o]);
            assert forall|i: int| 0 <= i < after.len() implies graph::chain_ids((#[trigger] after[i]).devices)
                == graph::chain_ids(tracks[i].devices) && after[i].id == tracks[i].id by {}
            assert(ids_ok(after)) by {
                assert forall|i: int, j: int|
                    0 <= i < after.len() && 0 <= j < after.len() && (#[trigger] after[i]).id == (#[trigger] after[j]).id implies i
                    == j by {
                    assert(tracks[i].id == tracks[j].id);
                }
                assert forall|i: int, j: int, chain: u64|
                    0 <= i < after.len() && 0 <= j < after.len() && (#[trigger] graph::chain_ids(
                        after[i].devices,
                    ).contains(chain)) && (#[trigger] graph::chain_ids(after[j].devices).contains(chain)) implies i
                    == j by {
                    assert(graph::chain_ids(tracks[i].devices).contains(chain));
                    assert(graph::chain_ids(tracks[j].devices).contains(chain));
                }
            }
            assert forall|i: int, j: int| 0 <= i < h.len() && 0 <= j < h.len() && #[trigger] h[i].contains(j) implies g[
            names[i]].contains(names[j]) || (names[i] == o && !graph::reaches(g, names[j], o)) by {
                law_edges_are_dependences(after, EdgeScope::Wired, i, j);
                law_edges_are_dependences(tracks, EdgeScope::Wired, i, j);
                lemma_depends_wired(after[i], after[j]);
                lemma_depends_wired(tracks[i], tracks[j]);
                lemma_reads_same(after[i].devices, after[j], tracks[j]);
                if i == o {
                    lemma_list_write_reads(tracks[o].devices, id, port, next, tracks[j]);
                    if !g[i].contains(j) {
                        assert(route_reads(next, tracks[j]));
                        assert(i != j);
                        lemma_accepted_source(song, o, j, next->0.tap.source);
                    }
                }
            }
            graph::law_song_graph_ok(tracks, EdgeScope::Wired);
            law_hub_edges_make_no_cycle(names, h, g, o);
        },
    }
}

/// What reads a track depends on its id and its chains only.
proof fn lemma_reads_same(devices: Seq<DeviceModel>, b: TrackModel, c: TrackModel)
    requires
        b.id == c.id,
        graph::chain_ids(b.devices) == graph::chain_ids(c.devices),
    ensures
        list_reads(devices, b) == list_reads(devices, c),
    decreases devices,
{
    if devices.len() > 0 {
        lemma_device_reads_same(devices[0], b, c);
        lemma_reads_same(devices.drop_first(), b, c);
    }
}

proof fn lemma_device_reads_same(d: DeviceModel, b: TrackModel, c: TrackModel)
    requires
        b.id == c.id,
        graph::chain_ids(b.devices) == graph::chain_ids(c.devices),
    ensures
        device_reads(d, b) == device_reads(d, c),
    decreases d,
{
    match d {
        DeviceModel::Plugin(p) => {
            assert forall|k: int| 0 <= k < p.aux_inputs.len() implies route_reads(#[trigger] p.aux_inputs[k], b)
                == route_reads(p.aux_inputs[k], c) by {}
        },
        DeviceModel::Native(n) => {},
        DeviceModel::Parallel { id: _, chains } => {
            lemma_chains_read_same(chains, b, c);
            assert(device_reads(d, b) == chains_read(chains, b));
            assert(device_reads(d, c) == chains_read(chains, c));
        },
    }
}

proof fn lemma_chains_read_same(chains: Seq<ChainModel>, b: TrackModel, c: TrackModel)
    requires
        b.id == c.id,
        graph::chain_ids(b.devices) == graph::chain_ids(c.devices),
    ensures
        chains_read(chains, b) == chains_read(chains, c),
    decreases chains,
{
    if chains.len() > 0 {
        lemma_reads_same(chains[0].devices, b, c);
        lemma_chains_read_same(chains.drop_first(), b, c);
    }
}

/// Wiring a side chain keeps wiring without cycles.
pub proof fn law_rewiring_keeps_acyclic(song: SongModel, id: u64, port: u8, source: Option<TapSource>)
    requires
        ids_ok(song.tracks),
        !graph::has_cycle(graph::song_graph(song.tracks, EdgeScope::Wired)),
    ensures
        ids_ok(song.rewired(id, port, source).tracks),
        !graph::has_cycle(graph::song_graph(song.rewired(id, port, source).tracks, EdgeScope::Wired)),
{
    if song.rewires(id, port, source) {
        let owner = song.device_owner(id)->0;
        let next = song.next_route(owner, edit::route_of(song.device(id)->0, port), source);
        lemma_write_keeps_acyclic(song, id, port, next);
    }
}

/// Judging ports keeps wiring without cycles.
pub proof fn law_dropping_keeps_acyclic(song: SongModel, ports: Seq<edit::WiredPort>, n: nat)
    requires
        ids_ok(song.tracks),
        n <= ports.len(),
        !graph::has_cycle(graph::song_graph(song.tracks, EdgeScope::Wired)),
    ensures
        ids_ok(edit::after_judging(song, ports, n).0.tracks),
        !graph::has_cycle(graph::song_graph(edit::after_judging(song, ports, n).0.tracks, EdgeScope::Wired)),
    decreases n,
{
    if n > 0 {
        law_dropping_keeps_acyclic(song, ports, (n - 1) as nat);
        let before = edit::after_judging(song, ports, (n - 1) as nat).0;
        let p = ports[n - 1];
        if before.port_closes_cycle(p) {
            lemma_write_keeps_acyclic(before, p.device, p.port, None);
        }
    }
}

// ---------------------------------------------------------------------------
// Sends
// ---------------------------------------------------------------------------

/// The tracks with a send added to the track at place `src`.
pub open spec fn with_send(tracks: Seq<TrackModel>, src: int, send: Send) -> Seq<TrackModel> {
    tracks.update(src, TrackModel { sends: tracks[src].sends.push(send), ..tracks[src] })
}

proof fn lemma_same_children(a: Seq<TrackModel>, b: Seq<TrackModel>, g: int, n: nat)
    requires
        n <= a.len() == b.len(),
        graph::track_ids(a) == graph::track_ids(b),
        forall|i: int| 0 <= i < a.len() ==> (#[trigger] a[i]).parent_group_id == b[i].parent_group_id,
    ensures
        graph::children(a, g, n) == graph::children(b, g, n),
    decreases n,
{
    if n > 0 {
        lemma_same_children(a, b, g, (n - 1) as nat);
        assert(a[n - 1].parent_group_id == b[n - 1].parent_group_id);
    }
}

proof fn lemma_same_chain_owner(a: Seq<TrackModel>, b: Seq<TrackModel>, chain: u64)
    requires
        a.len() == b.len(),
        forall|i: int| 0 <= i < a.len() ==> (#[trigger] a[i]).devices == b[i].devices,
    ensures
        graph::chain_owner(a, chain) == graph::chain_owner(b, chain),
    decreases a.len(),
{
    if a.len() > 0 {
        assert(a.last().devices == b.last().devices);
        lemma_same_chain_owner(a.drop_last(), b.drop_last(), chain);
    }
}

proof fn lemma_same_routes(a: Seq<TrackModel>, b: Seq<TrackModel>, i: int, routes: Seq<Option<AuxInputRoute>>)
    requires
        a.len() == b.len(),
        graph::track_ids(a) == graph::track_ids(b),
        forall|i: int| 0 <= i < a.len() ==> (#[trigger] a[i]).devices == b[i].devices,
    ensures
        graph::route_sources(a, i, routes) == graph::route_sources(b, i, routes),
    decreases routes.len(),
{
    if routes.len() > 0 {
        lemma_same_routes(a, b, i, routes.drop_last());
        if let Some(route) = routes.last() {
            if let TapSource::Chain(chain) = route.tap.source {
                lemma_same_chain_owner(a, b, chain);
            }
        }
    }
}

proof fn lemma_same_consumers(
    a: Seq<TrackModel>,
    b: Seq<TrackModel>,
    i: int,
    cs: Seq<ConsumerModel>,
    scope: EdgeScope,
)
    requires
        a.len() == b.len(),
        graph::track_ids(a) == graph::track_ids(b),
        forall|i: int| 0 <= i < a.len() ==> (#[trigger] a[i]).devices == b[i].devices,
    ensures
        graph::consumer_sources(a, i, cs, scope) == graph::consumer_sources(b, i, cs, scope),
    decreases cs.len(),
{
    if cs.len() > 0 {
        lemma_same_consumers(a, b, i, cs.drop_last(), scope);
        lemma_same_routes(a, b, i, cs.last().routes);
    }
}

proof fn lemma_sources_with_send(tracks: Seq<TrackModel>, src: int, send: Send, i: int, n: nat, j: int)
    requires
        0 <= src < tracks.len(),
        n <= tracks.len(),
    ensures
        graph::send_sources(with_send(tracks, src, send), i, n).contains(j) <==> graph::send_sources(
            tracks,
            i,
            n,
        ).contains(j) || (j == src && src < n && graph::id_index(graph::track_ids(tracks), send.dest_track_id) == Some(
            i,
        )),
    decreases n,
{
    let after = with_send(tracks, src, send);
    let ids = graph::track_ids(tracks);
    assert(graph::track_ids(after) =~= ids);
    if n > 0 {
        lemma_sources_with_send(tracks, src, send, i, (n - 1) as nat, j);
        let was = graph::send_edges(ids, i, n - 1, tracks[n - 1].sends);
        let now = graph::send_edges(ids, i, n - 1, after[n - 1].sends);
        if n - 1 == src {
            assert(after[src].sends.drop_last() =~= tracks[src].sends);
            assert(after[src].sends.last() == send);
            if graph::id_index(ids, send.dest_track_id) == Some(i) {
                assert(now == was.push(src));
                assert(now.last() == src);
                assert forall|x: int| now.contains(x) implies was.contains(x) || x == src by {
                    let k = choose|k: int| 0 <= k < now.len() && now[k] == x;
                    if k < was.len() {
                        assert(was[k] == x);
                    }
                }
                assert forall|x: int| was.contains(x) implies now.contains(x) by {
                    let k = choose|k: int| 0 <= k < was.len() && was[k] == x;
                    assert(now[k] == x);
                }
                assert(now[now.len() - 1] == src);
            }
        } else {
            assert(after[n - 1] == tracks[n - 1]);
        }
        lemma_add_contains(graph::send_sources(after, i, (n - 1) as nat), now, j);
        lemma_add_contains(graph::send_sources(tracks, i, (n - 1) as nat), was, j);
    } else {
        assert(!graph::send_sources(after, i, n).contains(j));
        assert(!graph::send_sources(tracks, i, n).contains(j));
    }
}

/// A send adds one edge to the graph: the track that it goes to depends on the one
/// that it is on.
pub proof fn law_a_send_adds_one_edge(tracks: Seq<TrackModel>, src: int, send: Send, scope: EdgeScope, i: int, j: int)
    requires
        0 <= src < tracks.len(),
        0 <= i < tracks.len(),
    ensures
        graph::song_graph(with_send(tracks, src, send), scope)[i].contains(j) <==> graph::song_graph(
            tracks,
            scope,
        )[i].contains(j) || (j == src && graph::id_index(graph::track_ids(tracks), send.dest_track_id) == Some(i)),
{
    let after = with_send(tracks, src, send);
    let n = tracks.len();
    assert(graph::track_ids(after) =~= graph::track_ids(tracks));
    lemma_same_children(after, tracks, i, n);
    assert(graph::track_consumers(after[i]) == graph::track_consumers(tracks[i]));
    let cs = graph::track_consumers(tracks[i]);
    lemma_same_consumers(after, tracks, i, cs, scope);
    lemma_sources_with_send(tracks, src, send, i, n, j);
    let a = graph::children(tracks, i, n);
    let b = graph::consumer_sources(tracks, i, cs, scope);
    lemma_add_contains(a, b, j);
    lemma_add_contains(a + b, graph::send_sources(tracks, i, n), j);
    lemma_add_contains(a + b, graph::send_sources(after, i, n), j);
}

/// Adding a send that [`Song::can_add_send`] allows keeps wiring without cycles.
pub proof fn law_allowed_send_keeps_acyclic(song: SongModel, src: int, send: Send)
    requires
        names_ok(song.tracks),
        0 <= src < song.tracks.len(),
        !graph::has_cycle(graph::song_graph(song.tracks, EdgeScope::Wired)),
        !song.closes_cycle(send.dest_track_id, song.tracks[src].id),
    ensures
        !graph::has_cycle(graph::song_graph(with_send(song.tracks, src, send), EdgeScope::Wired)),
{
    let tracks = song.tracks;
    let g = graph::song_graph(tracks, EdgeScope::Wired);
    let h = graph::song_graph(with_send(tracks, src, send), EdgeScope::Wired);
    let names = same_names(tracks.len());
    let ids = graph::track_ids(tracks);
    assert(ids.take(tracks.len() as int) =~= ids);
    // The new edge leads from the destination, if it exists, to the source.
    let hub = match graph::id_index(ids, send.dest_track_id) {
        Some(d) => d,
        None => -1,
    };
    lemma_id_index_iff(tracks, tracks[src].id, src, tracks.len());
    assert forall|i: int, j: int| 0 <= i < h.len() && 0 <= j < h.len() && #[trigger] h[i].contains(j) implies g[
    names[i]].contains(names[j]) || (names[i] == hub && !graph::reaches(g, names[j], hub)) by {
        law_a_send_adds_one_edge(tracks, src, send, EdgeScope::Wired, i, j);
    }
    graph::law_song_graph_ok(tracks, EdgeScope::Wired);
    law_hub_edges_make_no_cycle(names, h, g, hub);
}

/// Adding a send between two tracks that [`Song::can_add_send`] refuses would close
/// a cycle.
pub proof fn law_refused_send_closes_a_cycle(song: SongModel, src: int, dest: int, send: Send)
    requires
        names_ok(song.tracks),
        0 <= src < song.tracks.len(),
        0 <= dest < song.tracks.len(),
        song.tracks[dest].id == send.dest_track_id,
        song.closes_cycle(send.dest_track_id, song.tracks[src].id),
    ensures
        graph::has_cycle(graph::song_graph(with_send(song.tracks, src, send), EdgeScope::Wired)),
{
    let tracks = song.tracks;
    let g = graph::song_graph(tracks, EdgeScope::Wired);
    let h = graph::song_graph(with_send(tracks, src, send), EdgeScope::Wired);
    let ids = graph::track_ids(tracks);
    assert(ids.take(tracks.len() as int) =~= ids);
    lemma_id_index_iff(tracks, send.dest_track_id, dest, tracks.len());
    lemma_id_index_iff(tracks, tracks[src].id, src, tracks.len());
    law_a_send_adds_one_edge(tracks, src, send, EdgeScope::Wired, dest, src);
    if tracks[src].id == send.dest_track_id {
        assert(src == dest);
        let walk = seq![src, src];
        assert(graph::is_walk(h, walk));
        assert(walk.last() == src);
    } else {
        let there = choose|walk: Seq<int>|
            #[trigger] graph::is_walk(g, walk) && walk[0] == src && walk.last() == dest;
        let round = there.push(src);
        assert forall|i: int| #![trigger round[i]] 0 <= i < round.len() - 1 implies h[round[i]].contains(
            round[i + 1],
        ) by {
            if i < there.len() - 1 {
                assert(round[i] == there[i] && round[i + 1] == there[i + 1]);
                assert(g[there[i]].contains(there[i + 1]));
                law_a_send_adds_one_edge(tracks, src, send, EdgeScope::Wired, there[i], there[i + 1]);
            }
        }
        assert(graph::is_walk(h, round));
    }
}

/// [`Song::can_add_send`] says of two tracks whether the wiring has an order with the
/// send, where it has one without: of a track and itself it says no.
pub proof fn law_sends_are_judged_rightly(song: SongModel, src: int, dest: int, send: Send)
    requires
        names_ok(song.tracks),
        0 <= src < song.tracks.len(),
        0 <= dest < song.tracks.len(),
        song.tracks[dest].id == send.dest_track_id,
        !graph::has_cycle(graph::song_graph(song.tracks, EdgeScope::Wired)),
    ensures
        song.closes_cycle(send.dest_track_id, song.tracks[src].id) == graph::has_cycle(
            graph::song_graph(with_send(song.tracks, src, send), EdgeScope::Wired),
        ),
        src == dest ==> song.closes_cycle(send.dest_track_id, song.tracks[src].id),
{
    if song.closes_cycle(send.dest_track_id, song.tracks[src].id) {
        law_refused_send_closes_a_cycle(song, src, dest, send);
    } else {
        law_allowed_send_keeps_acyclic(song, src, send);
    }
}

// ---------------------------------------------------------------------------
// Moving
// ---------------------------------------------------------------------------

/// `t` is the track at place `k` of `tracks`.
spec fn is_at(tracks: Seq<TrackModel>, t: TrackModel, k: int) -> bool {
    0 <= k < tracks.len() && tracks[k] == t
}

/// `t` is one of `tracks`.
spec fn is_one_of(tracks: Seq<TrackModel>, t: TrackModel) -> bool {
    exists|k: int| is_at(tracks, t, k)
}

spec fn all_of(tracks: Seq<TrackModel>, s: Seq<TrackModel>) -> bool {
    forall|i: int| 0 <= i < s.len() ==> is_one_of(tracks, #[trigger] s[i])
}

/// Taking tracks takes them from where they are.
proof fn lemma_taken_from(tracks: Seq<TrackModel>, ids: Seq<u32>, n: nat)
    requires
        n <= ids.len(),
    ensures
        all_of(tracks, moving::taken(tracks, ids, n).0),
        all_of(tracks, moving::taken(tracks, ids, n).1),
        forall|i: int|
            0 <= i < moving::taken(tracks, ids, n).1.len() ==> ids.contains(
                (#[trigger] moving::taken(tracks, ids, n).1[i]).id,
            ),
    decreases n,
{
    if n == 0 {
        assert forall|i: int| 0 <= i < tracks.len() implies is_one_of(tracks, #[trigger] tracks[i]) by {
            assert(is_at(tracks, tracks[i], i));
        }
    } else {
        lemma_taken_from(tracks, ids, (n - 1) as nat);
        let before = moving::taken(tracks, ids, (n - 1) as nat);
        let now = moving::taken(tracks, ids, n);
        lookup::lemma_track_place(before.0, ids[n - 1]);
        if let Some(p) = lookup::track_place(before.0, ids[n - 1]) {
            assert forall|i: int| 0 <= i < now.0.len() implies is_one_of(tracks, #[trigger] now.0[i]) by {
                if i < p {
                    assert(now.0[i] == before.0[i]);
                } else {
                    assert(now.0[i] == before.0[i + 1]);
                }
            }
            assert forall|i: int| 0 <= i < now.1.len() implies is_one_of(tracks, #[trigger] now.1[i]) by {
                if i < before.1.len() {
                    assert(now.1[i] == before.1[i]);
                } else {
                    assert(now.1[i] == before.0[p]);
                }
            }
            assert forall|i: int| 0 <= i < now.1.len() implies ids.contains((#[trigger] now.1[i]).id) by {
                if i < before.1.len() {
                    assert(now.1[i] == before.1[i]);
                } else {
                    assert(now.1[i].id == ids[n - 1]);
                }
            }
        }
    }
}

/// A track after moving: one from before, its group changed if it was moved.
spec fn moved_from(song: SongModel, ids: Seq<u32>, parent: Option<u32>, t: TrackModel, k: int) -> bool {
    &&& 0 <= k < song.tracks.len()
    &&& t.id == song.tracks[k].id
    &&& t.devices == song.tracks[k].devices
    &&& t.sends == song.tracks[k].sends
    &&& t.parent_group_id == song.tracks[k].parent_group_id || (t.parent_group_id == parent && ids.contains(t.id))
}

proof fn lemma_moved_from(song: SongModel, ids: Seq<u32>, parent: Option<u32>, anchor: Option<u32>, i: int) -> (k: int)
    requires
        song.can_move(ids, parent),
        !song.move_is_cyclic(ids, parent),
        0 <= i < song.moved(ids, parent, anchor).tracks.len(),
    ensures
        moved_from(song, ids, parent, song.moved(ids, parent, anchor).tracks[i], k),
{
    let tracks = song.tracks;
    let (rest, gone) = moving::taken(tracks, ids, ids.len());
    let at = moving::place_after(rest, anchor);
    let after = moving::rearranged(tracks, ids, parent, anchor);
    lemma_taken_from(tracks, ids, ids.len());
    if let Some(id) = anchor {
        lookup::lemma_track_place(rest, id);
    }
    let t = after[i];
    let k = if i < at {
        assert(t == rest[i]);
        assert(is_one_of(tracks, rest[i]));
        choose|k: int| is_at(tracks, rest[i], k)
    } else if i < at + gone.len() {
        assert(t == moving::under(gone, parent)[i - at]);
        let u = gone[i - at];
        assert(is_one_of(tracks, u));
        choose|k: int| is_at(tracks, u, k)
    } else {
        assert(t == rest[i - gone.len()]);
        let u = rest[i - gone.len()];
        assert(is_one_of(tracks, u));
        choose|k: int| is_at(tracks, u, k)
    };
    assert(moved_from(song, ids, parent, t, k));
    k
}

/// Moving tracks keeps wiring without cycles, given that ids stay distinct.
pub proof fn law_moving_keeps_acyclic(song: SongModel, ids: Seq<u32>, parent: Option<u32>, anchor: Option<u32>)
    requires
        ids_ok(song.tracks),
        !graph::has_cycle(graph::song_graph(song.tracks, EdgeScope::Wired)),
    ensures
        ids_ok(song.moved(ids, parent, anchor).tracks),
        !graph::has_cycle(graph::song_graph(song.moved(ids, parent, anchor).tracks, EdgeScope::Wired)),
{
    if song.can_move(ids, parent) && !song.move_is_cyclic(ids, parent) {
        let tracks = song.tracks;
        let after = song.moved(ids, parent, anchor).tracks;
        lemma_moved_distinct(song, ids, parent, anchor);
        let names = Seq::new(after.len(), |i: int| choose|k: int| moved_from(song, ids, parent, after[i], k));
        assert forall|i: int| 0 <= i < after.len() implies moved_from(song, ids, parent, after[i], #[trigger] names[i]) by {
            let k = lemma_moved_from(song, ids, parent, anchor, i);
        }
        assert(ids_ok(after)) by {
            assert forall|i: int| 0 <= i < after.len() implies (#[trigger] after[i]).id != 0 && after[i].id
                != MASTER_TRACK_ID by {
                assert(moved_from(song, ids, parent, after[i], names[i]));
            }
            assert forall|i: int, j: int, chain: u64|
                0 <= i < after.len() && 0 <= j < after.len() && (#[trigger] graph::chain_ids(
                    after[i].devices,
                ).contains(chain)) && (#[trigger] graph::chain_ids(after[j].devices).contains(chain)) implies i == j by {
                assert(moved_from(song, ids, parent, after[i], names[i]));
                assert(moved_from(song, ids, parent, after[j], names[j]));
                assert(graph::chain_ids(tracks[names[i]].devices).contains(chain));
                assert(graph::chain_ids(tracks[names[j]].devices).contains(chain));
                assert(after[i].id == after[j].id);
            }
        }
        let g = graph::song_graph(tracks, EdgeScope::Wired);
        let h = graph::song_graph(after, EdgeScope::Wired);
        let track_ids = graph::track_ids(tracks);
        assert(track_ids.take(tracks.len() as int) =~= track_ids);
        let hub = match parent {
            Some(p) => match lookup::track_place(tracks, p) {
                Some(i) => i,
                None => -1,
            },
            None => -1,
        };
        if let Some(p) = parent {
            lookup::lemma_track_place(tracks, p);
        }
        assert forall|i: int, j: int| 0 <= i < h.len() && 0 <= j < h.len() && #[trigger] h[i].contains(j) implies g[
        names[i]].contains(names[j]) || (names[i] == hub && !graph::reaches(g, names[j], hub)) by {
            assert(moved_from(song, ids, parent, after[i], names[i]));
            assert(moved_from(song, ids, parent, after[j], names[j]));
            law_edges_are_dependences(after, EdgeScope::Wired, i, j);
            law_edges_are_dependences(tracks, EdgeScope::Wired, names[i], names[j]);
            lemma_depends_wired(after[i], after[j]);
            lemma_depends_wired(tracks[names[i]], tracks[names[j]]);
            lemma_reads_same(after[i].devices, after[j], tracks[names[j]]);
            if !g[names[i]].contains(names[j]) {
                let a = tracks[names[i]];
                let b = tracks[names[j]];
                assert(after[j].parent_group_id == Some(a.id));
                assert(b.parent_group_id != Some(a.id));
                let p = a.id;
                assert(parent == Some(p));
                assert(tracks[hub].id == p);
                assert(names[i] == hub);
                let q = choose|q: int| 0 <= q < ids.len() && ids[q] == b.id;
                assert(!song.refuses_move(ids[q], p));
                lookup::lemma_track_place(tracks, b.id);
                let place = lookup::track_place(tracks, b.id)->0;
                assert(tracks[place].id == b.id);
                assert(place == names[j]);
                lemma_id_index_iff(tracks, p, hub, tracks.len());
                lemma_id_index_iff(tracks, b.id, names[j], tracks.len());
            }
        }
        assert forall|i: int| 0 <= i < names.len() implies 0 <= #[trigger] names[i] < g.len() by {
            assert(moved_from(song, ids, parent, after[i], names[i]));
        }
        graph::law_song_graph_ok(tracks, EdgeScope::Wired);
        law_hub_edges_make_no_cycle(names, h, g, hub);
    }
}

/// The ids of `tracks` are distinct.
spec fn distinct_ids(tracks: Seq<TrackModel>) -> bool {
    forall|i: int, j: int|
        0 <= i < tracks.len() && 0 <= j < tracks.len() && (#[trigger] tracks[i]).id == (#[trigger] tracks[j]).id ==> i
            == j
}

proof fn lemma_taken_distinct(tracks: Seq<TrackModel>, ids: Seq<u32>, n: nat)
    requires
        distinct_ids(tracks),
        n <= ids.len(),
    ensures
        distinct_ids(moving::taken(tracks, ids, n).0 + moving::taken(tracks, ids, n).1),
    decreases n,
{
    let now = moving::taken(tracks, ids, n);
    if n == 0 {
        assert(now.0 + now.1 =~= tracks);
    } else {
        lemma_taken_distinct(tracks, ids, (n - 1) as nat);
        let before = moving::taken(tracks, ids, (n - 1) as nat);
        lookup::lemma_track_place(before.0, ids[n - 1]);
        if let Some(p) = lookup::track_place(before.0, ids[n - 1]) {
            let a = before.0 + before.1;
            let b = now.0 + now.1;
            assert forall|i: int, j: int|
                0 <= i < b.len() && 0 <= j < b.len() && (#[trigger] b[i]).id == (#[trigger] b[j]).id implies i == j by {
                let ai = if i < p {
                    i
                } else if i < b.len() - 1 {
                    i + 1
                } else {
                    p
                };
                let aj = if j < p {
                    j
                } else if j < b.len() - 1 {
                    j + 1
                } else {
                    p
                };
                assert(a[ai] == b[i]);
                assert(a[aj] == b[j]);
                assert(ai == aj);
            }
        }
    }
}

proof fn lemma_moved_distinct(song: SongModel, ids: Seq<u32>, parent: Option<u32>, anchor: Option<u32>)
    requires
        distinct_ids(song.tracks),
        song.can_move(ids, parent),
        !song.move_is_cyclic(ids, parent),
    ensures
        distinct_ids(song.moved(ids, parent, anchor).tracks),
{
    let tracks = song.tracks;
    let after = song.moved(ids, parent, anchor).tracks;
    let (rest, gone) = moving::taken(tracks, ids, ids.len());
    let at = moving::place_after(rest, anchor);
    lemma_taken_distinct(tracks, ids, ids.len());
    if let Some(id) = anchor {
        lookup::lemma_track_place(rest, id);
    }
    let a = rest + gone;
    let order = moving::rearranged(tracks, ids, parent, anchor);
    assert forall|i: int, j: int|
        0 <= i < after.len() && 0 <= j < after.len() && (#[trigger] after[i]).id == (#[trigger] after[j]).id implies i
        == j by {
        assert(after[i].id == order[i].id && after[j].id == order[j].id);
        let ai = if i < at {
            i
        } else if i < at + gone.len() {
            rest.len() + i - at
        } else {
            i - gone.len()
        };
        let aj = if j < at {
            j
        } else if j < at + gone.len() {
            rest.len() + j - at
        } else {
            j - gone.len()
        };
        assert(a[ai].id == order[i].id);
        assert(a[aj].id == order[j].id);
        assert(ai == aj);
    }
}

} // verus!
