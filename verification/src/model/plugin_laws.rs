//! What holds of the plugins that are listed.

use super::device::{Device, Parallel, ParallelChain, PluginInstance};
use super::track::Track;
use super::track_enable;
use crate::model;
use vstd::prelude::*;

verus! {

proof fn lemma_chain_joined(a: Seq<Device>, b: Seq<Device>)
    ensures
        track_enable::plugins(a + b) == track_enable::plugins(a) + track_enable::plugins(b),
    decreases b.len(),
{
    if b.len() == 0 {
        assert(a + b =~= a);
        assert(track_enable::plugins(b) =~= Seq::<PluginInstance>::empty());
    } else {
        assert((a + b).drop_last() =~= a + b.drop_last());
        assert((a + b).last() == b.last());
        lemma_chain_joined(a, b.drop_last());
        assert(track_enable::plugins(a) + (track_enable::plugins(b.drop_last()) + track_enable::device_plugins(
            b.last(),
        )) =~= (track_enable::plugins(a) + track_enable::plugins(b.drop_last())) + track_enable::device_plugins(
            b.last(),
        ));
    }
}

proof fn lemma_one_device(d: Device)
    ensures
        track_enable::plugins(seq![d]) == track_enable::device_plugins(d),
{
    assert(seq![d].drop_last() =~= Seq::<Device>::empty());
    assert(seq![d].last() == d);
    assert(track_enable::plugins(Seq::<Device>::empty()) =~= Seq::<PluginInstance>::empty());
    assert(Seq::<PluginInstance>::empty() + track_enable::device_plugins(d) =~= track_enable::device_plugins(d));
}

proof fn lemma_chains_joined(a: Seq<ParallelChain>, b: Seq<ParallelChain>)
    ensures
        track_enable::chains_plugins(a + b) == track_enable::chains_plugins(a) + track_enable::chains_plugins(b),
    decreases b.len(),
{
    if b.len() == 0 {
        assert(a + b =~= a);
        assert(track_enable::chains_plugins(b) =~= Seq::<PluginInstance>::empty());
    } else {
        assert((a + b).drop_last() =~= a + b.drop_last());
        assert((a + b).last() == b.last());
        lemma_chains_joined(a, b.drop_last());
        let last = track_enable::plugins(b.last().devices@);
        assert(track_enable::chains_plugins(a) + (track_enable::chains_plugins(b.drop_last()) + last) =~= (
        track_enable::chains_plugins(a) + track_enable::chains_plugins(b.drop_last())) + last);
    }
}

/// Two chains behind each other list the plugins of the first, then those of the second.
/// A plugin lists itself, and what is built in lists none.
pub proof fn law_plugins_follow_the_signal(a: Seq<Device>, b: Seq<Device>, d: Device)
    ensures
        track_enable::plugins(a + b) == track_enable::plugins(a) + track_enable::plugins(b),
        d matches Device::Plugin(p) ==> track_enable::plugins(seq![d]) == seq![p],
        d is Native ==> track_enable::plugins(seq![d]).len() == 0,
{
    lemma_chain_joined(a, b);
    lemma_one_device(d);
}

/// A rack of one chain lists what the chain does. A rack that has the chains of two others
/// lists the plugins of the first, then those of the second.
pub proof fn law_racks_list_their_chains(r: Parallel, first: Parallel, second: Parallel)
    ensures
        r.chains@.len() == 0 ==> track_enable::plugins(seq![Device::Parallel(r)]).len() == 0,
        r.chains@.len() == 1 ==> track_enable::plugins(seq![Device::Parallel(r)]) == track_enable::plugins(
            r.chains@[0].devices@,
        ),
        r.chains@ == first.chains@ + second.chains@ ==> track_enable::plugins(seq![Device::Parallel(r)])
            == track_enable::plugins(seq![Device::Parallel(first)]) + track_enable::plugins(
            seq![Device::Parallel(second)],
        ),
{
    lemma_one_device(Device::Parallel(r));
    lemma_one_device(Device::Parallel(first));
    lemma_one_device(Device::Parallel(second));
    lemma_chains_joined(first.chains@, second.chains@);
    if r.chains@.len() == 1 {
        let none = r.chains@.drop_last();
        assert(track_enable::chains_plugins(none) =~= Seq::<PluginInstance>::empty());
        assert(Seq::<PluginInstance>::empty() + track_enable::plugins(r.chains@[0].devices@)
            =~= track_enable::plugins(r.chains@[0].devices@));
    }
}

proof fn lemma_live_before(tracks: Seq<Track>, m: nat, n: nat)
    requires
        m <= n <= tracks.len(),
    ensures
        track_enable::live_on_tracks(tracks, m).len() <= track_enable::live_on_tracks(tracks, n).len(),
        track_enable::live_on_tracks(tracks, n).take(track_enable::live_on_tracks(tracks, m).len() as int)
            == track_enable::live_on_tracks(tracks, m),
    decreases n,
{
    let before = track_enable::live_on_tracks(tracks, m);
    if m == n {
        assert(before.take(before.len() as int) =~= before);
    } else {
        let k = (n - 1) as nat;
        lemma_live_before(tracks, m, k);
        assert(track_enable::live_on_tracks(tracks, n).take(before.len() as int)
            =~= track_enable::live_on_tracks(tracks, k).take(before.len() as int));
    }
}

/// In what is to be loaded, each track that runs has its plugins behind those of the tracks
/// before it and ahead of those of the tracks behind it; a track that does not run has none.
pub proof fn law_tracks_that_run_are_loaded(tracks: Seq<Track>, i: int)
    requires
        0 <= i < tracks.len(),
    ensures
        ({
            let all = track_enable::live_on_tracks(tracks, tracks.len());
            let from = track_enable::live_on_tracks(tracks, i as nat).len() as int;
            let to = track_enable::live_on_tracks(tracks, (i + 1) as nat).len() as int;
            &&& 0 <= from <= to <= all.len()
            &&& i == 0 ==> from == 0
            &&& i == tracks.len() - 1 ==> to == all.len()
            &&& track_enable::runs(model::models(tracks), i) ==> all.subrange(from, to) == track_enable::plugins(
                tracks[i].devices@,
            )
            &&& !track_enable::runs(model::models(tracks), i) ==> from == to
        }),
{
    let all = track_enable::live_on_tracks(tracks, tracks.len());
    let here = track_enable::live_on_tracks(tracks, i as nat);
    let next = track_enable::live_on_tracks(tracks, (i + 1) as nat);
    lemma_live_before(tracks, i as nat, (i + 1) as nat);
    lemma_live_before(tracks, (i + 1) as nat, tracks.len());
    let ms = model::models(tracks);
    assert(ms[i].id == tracks[i].id);
    let from = here.len() as int;
    let to = next.len() as int;
    assert(all.subrange(from, to) =~= next.subrange(from, to)) by {
        assert forall|k: int| from <= k < to implies all[k] == next[k] by {
            assert(all.take(to)[k] == all[k]);
        }
    }
    if track_enable::runs(ms, i) {
        assert(next.subrange(from, to) =~= track_enable::plugins(tracks[i].devices@));
    }
}

} // verus!
