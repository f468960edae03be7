//! Disabling tracks.
//!
//! A disabled track stays in the project and leaves everything that runs. One
//! question decides for all of them: whether a track and every group above it
//! are enabled. The flag of each track is kept on its own, so a group that is
//! enabled again leaves the tracks disabled that were disabled themselves.

use super::automation::{AutomationLane, LaneModel, ModSource, RowPlayback};
use super::device::{Device, ParallelChain, PluginInstance};
use super::lookup;
use super::song::{Song, SongModel};
use super::track::{Track, TrackModel};
use super::MASTER_TRACK_ID;
use crate::model;
use vstd::prelude::*;

verus! {

// ---------------------------------------------------------------------------
// Groups above a track
// ---------------------------------------------------------------------------

/// Whether the track `id` and the groups above it satisfy `ok`, which is given
/// by place. A track that does not exist does not; a group that does not exist
/// ends the walk, and so does a walk of more than `cap` steps.
pub open spec fn lineage_ok(tracks: Seq<TrackModel>, id: u32, cap: nat, hops: nat, ok: Seq<bool>) -> bool
    decreases cap + 2 - hops,
{
    match lookup::track_place(tracks, id) {
        None => hops > 0,
        Some(i) => if !ok[i] {
            false
        } else if hops > cap {
            true
        } else {
            match tracks[i].parent_group_id {
                None => true,
                Some(parent) => lineage_ok(tracks, parent, cap, hops + 1, ok),
            }
        },
    }
}

/// Which tracks carry the flag themselves.
pub open spec fn own_enabled(tracks: Seq<TrackModel>) -> Seq<bool> {
    Seq::new(tracks.len(), |i: int| tracks[i].enabled)
}

/// Whether the track `id` is enabled together with every group above it. The
/// master bus always is; a track that does not exist is not.
pub open spec fn effectively_enabled(tracks: Seq<TrackModel>, id: u32) -> bool {
    id == MASTER_TRACK_ID || lineage_ok(tracks, id, tracks.len(), 0, own_enabled(tracks))
}

/// The place of the group `k` steps above the track at place `i`.
pub open spec fn group_above(tracks: Seq<TrackModel>, i: int, k: nat) -> Option<int>
    decreases k,
{
    if k == 0 {
        Some(i)
    } else {
        match group_above(tracks, i, (k - 1) as nat) {
            None => None,
            Some(j) => match tracks[j].parent_group_id {
                None => None,
                Some(parent) => lookup::track_place(tracks, parent),
            },
        }
    }
}

pub proof fn lemma_group_above_place(tracks: Seq<TrackModel>, i: int, k: nat)
    requires
        0 <= i < tracks.len(),
    ensures
        group_above(tracks, i, k) matches Some(j) ==> 0 <= j < tracks.len(),
    decreases k,
{
    if k > 0 {
        lemma_group_above_place(tracks, i, (k - 1) as nat);
        if let Some(j) = group_above(tracks, i, (k - 1) as nat) {
            if let Some(parent) = tracks[j].parent_group_id {
                lookup::lemma_track_place(tracks, parent);
            }
        }
    }
}

/// Groups above a group.
pub(crate) proof fn lemma_group_above_chain(tracks: Seq<TrackModel>, i: int, a: nat, b: nat)
    requires
        group_above(tracks, i, a) is Some,
    ensures
        group_above(tracks, i, a + b) == group_above(tracks, group_above(tracks, i, a)->0, b),
    decreases b,
{
    if b > 0 {
        lemma_group_above_chain(tracks, i, a, (b - 1) as nat);
        assert((a + b - 1) as nat == a + (b - 1) as nat);
    }
}

/// Every group that exists on the way up exists together with those below it.
proof fn lemma_group_below_exists(tracks: Seq<TrackModel>, i: int, a: nat, b: nat)
    requires
        group_above(tracks, i, b) is Some,
        a <= b,
    ensures
        group_above(tracks, i, a) is Some,
    decreases b - a,
{
    if a < b {
        lemma_group_below_exists(tracks, i, a, (b - 1) as nat);
    }
}

/// What the walk decides: all groups up to the cap satisfy `ok`.
proof fn lemma_lineage_steps(tracks: Seq<TrackModel>, i: int, cap: nat, hops: nat, ok: Seq<bool>, id: u32)
    requires
        0 <= i < tracks.len(),
        hops <= cap + 1,
        hops > 0 || lookup::track_place(tracks, id) == Some(i),
        hops > 0 ==> group_above(tracks, i, (hops - 1) as nat) is Some && tracks[group_above(
            tracks,
            i,
            (hops - 1) as nat,
        )->0].parent_group_id == Some(id),
    ensures
        lineage_ok(tracks, id, cap, hops, ok) <==> (forall|k: nat|
            #![trigger group_above(tracks, i, k)]
            hops <= k <= cap + 1 ==> (group_above(tracks, i, k) matches Some(j) ==> ok[j])),
    decreases cap + 2 - hops,
{
    assert(group_above(tracks, i, hops) == lookup::track_place(tracks, id));
    match lookup::track_place(tracks, id) {
        None => {
            assert forall|k: nat| hops <= k <= cap + 1 implies (#[trigger] group_above(tracks, i, k) matches Some(j)
                ==> ok[j]) by {
                if group_above(tracks, i, k) is Some {
                    lemma_group_below_exists(tracks, i, hops, k);
                }
            }
        },
        Some(j) => {
            if ok[j] && hops <= cap {
                match tracks[j].parent_group_id {
                    None => {
                        assert(group_above(tracks, i, hops + 1) is None);
                        assert forall|k: nat| hops <= k <= cap + 1 implies (#[trigger] group_above(tracks, i, k)
                            matches Some(q) ==> ok[q]) by {
                            if k > hops && group_above(tracks, i, k) is Some {
                                lemma_group_below_exists(tracks, i, hops + 1, k);
                            }
                        }
                    },
                    Some(parent) => {
                        lemma_lineage_steps(tracks, i, cap, hops + 1, ok, parent);
                    },
                }
            }
        },
    }
}

/// Among the first `n + 1` groups on the way up two are the same track.
proof fn lemma_groups_repeat(tracks: Seq<TrackModel>, i: int) -> (pair: (nat, nat))
    requires
        0 <= i < tracks.len(),
        group_above(tracks, i, tracks.len()) is Some,
    ensures
        pair.0 < pair.1 <= tracks.len(),
        group_above(tracks, i, pair.0) is Some,
        group_above(tracks, i, pair.0) == group_above(tracks, i, pair.1),
{
    let n = tracks.len();
    let s = Seq::new(n + 1, |k: int| group_above(tracks, i, k as nat)->0);
    assert forall|k: int| 0 <= k < s.len() implies 0 <= #[trigger] s[k] < n by {
        lemma_group_below_exists(tracks, i, k as nat, n);
        lemma_group_above_place(tracks, i, k as nat);
    }
    if s.no_duplicates() {
        crate::routing_deps::graph::lemma_distinct_len(s, n as int);
    }
    let (a, b) = choose|a: int, b: int| 0 <= a < s.len() && 0 <= b < s.len() && a != b && s[a] == s[b];
    lemma_group_below_exists(tracks, i, a as nat, n);
    lemma_group_below_exists(tracks, i, b as nat, n);
    if a < b {
        (a as nat, b as nat)
    } else {
        (b as nat, a as nat)
    }
}

/// Every group above a track is met within the first `n` steps.
proof fn lemma_group_met_early(tracks: Seq<TrackModel>, i: int, k: nat) -> (early: nat)
    requires
        0 <= i < tracks.len(),
        group_above(tracks, i, k) is Some,
    ensures
        early <= tracks.len(),
        group_above(tracks, i, early) == group_above(tracks, i, k),
    decreases k,
{
    if k <= tracks.len() {
        k
    } else {
        lemma_group_below_exists(tracks, i, tracks.len(), k);
        let (a, b) = lemma_groups_repeat(tracks, i);
        let rest = (k - b) as nat;
        lemma_group_above_chain(tracks, i, a, rest);
        lemma_group_above_chain(tracks, i, b, rest);
        lemma_group_met_early(tracks, i, a + rest)
    }
}

/// The walk upwards holds exactly when the track and every group above it, at
/// whatever distance, satisfy `ok`.
pub proof fn law_lineage_is_every_group(tracks: Seq<TrackModel>, id: u32, ok: Seq<bool>)
    requires
        lookup::track_place(tracks, id) is Some,
    ensures
        lineage_ok(tracks, id, tracks.len(), 0, ok) <==> (forall|k: nat|
            #![trigger group_above(tracks, lookup::track_place(tracks, id)->0, k)]
            group_above(tracks, lookup::track_place(tracks, id)->0, k) matches Some(j) ==> ok[j]),
{
    lookup::lemma_track_place(tracks, id);
    let i = lookup::track_place(tracks, id)->0;
    lemma_lineage_steps(tracks, i, tracks.len(), 0, ok, id);
    if lineage_ok(tracks, id, tracks.len(), 0, ok) {
        assert forall|k: nat| (#[trigger] group_above(tracks, i, k)) is Some implies ok[group_above(
            tracks,
            i,
            k,
        )->0] by {
            let early = lemma_group_met_early(tracks, i, k);
            assert(ok[group_above(tracks, i, early)->0]);
        }
    }
}

/// A track is effectively enabled exactly when it and every group above it, at
/// whatever distance, are enabled.
pub proof fn law_enabled_with_every_group(tracks: Seq<TrackModel>, id: u32)
    requires
        id != MASTER_TRACK_ID,
        lookup::track_place(tracks, id) is Some,
    ensures
        effectively_enabled(tracks, id) <==> (forall|k: nat|
            #![trigger group_above(tracks, lookup::track_place(tracks, id)->0, k)]
            group_above(tracks, lookup::track_place(tracks, id)->0, k) matches Some(j) ==> tracks[j].enabled),
{
    lookup::lemma_track_place(tracks, id);
    let i = lookup::track_place(tracks, id)->0;
    let ok = own_enabled(tracks);
    law_lineage_is_every_group(tracks, id, ok);
    assert forall|k: nat| (#[trigger] group_above(tracks, i, k)) is Some implies ok[group_above(tracks, i, k)->0]
        == tracks[group_above(tracks, i, k)->0].enabled by {
        lemma_group_above_place(tracks, i, k);
    }
}

// ---------------------------------------------------------------------------
// The plugins of a chain
// ---------------------------------------------------------------------------

/// The plugins inside a device.
pub open spec fn device_plugins(d: Device) -> Seq<PluginInstance>
    decreases d,
{
    match d {
        Device::Plugin(p) => seq![p],
        Device::Native(_) => Seq::empty(),
        Device::Parallel(r) => chains_plugins(r.chains@),
    }
}

/// The plugins inside the chains of a rack.
pub open spec fn chains_plugins(chains: Seq<ParallelChain>) -> Seq<PluginInstance>
    decreases chains,
{
    if chains.len() == 0 {
        Seq::empty()
    } else {
        chains_plugins(chains.drop_last()) + plugins(chains.last().devices@)
    }
}

/// The plugins of a device chain in signal order, those inside racks included.
pub open spec fn plugins(devices: Seq<Device>) -> Seq<PluginInstance>
    decreases devices,
{
    if devices.len() == 0 {
        Seq::empty()
    } else {
        plugins(devices.drop_last()) + device_plugins(devices.last())
    }
}

/// The values behind references.
pub open spec fn values<T>(refs: Seq<&T>) -> Seq<T> {
    Seq::new(refs.len(), |i: int| *refs[i])
}

/// Appends the plugins of a device chain.
pub fn push_plugins<'a>(devices: &'a Vec<Device>, out: &mut Vec<&'a PluginInstance>)
    ensures
        values(final(out)@) == values(old(out)@) + plugins(devices@),
    decreases devices@,
{
    let ghost start = values(out@);
    let ghost ds = devices@;
    let mut i: usize = 0;
    proof {
        assert(ds.take(0) =~= Seq::<Device>::empty());
        assert(start + plugins(ds.take(0)) =~= start);
    }
    while i < devices.len()
        invariant
            ds == devices@,
            i <= ds.len(),
            values(out@) == start + plugins(ds.take(i as int)),
        decreases ds.len() - i,
    {
        let ghost before = values(out@);
        proof {
            assert(ds.take(i + 1).drop_last() =~= ds.take(i as int));
            assert(ds.take(i + 1).last() == ds[i as int]);
            assert(plugins(ds.take(i + 1)) == plugins(ds.take(i as int)) + device_plugins(ds[i as int]));
            assert(start + (plugins(ds.take(i as int)) + device_plugins(ds[i as int])) =~= before + device_plugins(
                ds[i as int],
            ));
        }
        match &devices[i] {
            Device::Plugin(p) => {
                out.push(p);
                assert(values(out@) =~= before + seq![*p]);
            },
            Device::Native(_) => {
                assert(before + Seq::<PluginInstance>::empty() =~= before);
            },
            Device::Parallel(r) => {
                let ghost cs = r.chains@;
                let mut j: usize = 0;
                proof {
                    assert(cs.take(0) =~= Seq::<ParallelChain>::empty());
                    assert(before + chains_plugins(cs.take(0)) =~= before);
                }
                while j < r.chains.len()
                    invariant
                        ds == devices@,
                        i < ds.len(),
                        ds[i as int] == Device::Parallel(*r),
                        cs == r.chains@,
                        j <= cs.len(),
                        values(out@) == before + chains_plugins(cs.take(j as int)),
                    decreases cs.len() - j,
                {
                    let c = &r.chains[j];
                    proof {
                        assert(cs.take(j + 1).drop_last() =~= cs.take(j as int));
                        assert(cs.take(j + 1).last() == cs[j as int]);
                        assert(chains_plugins(cs.take(j + 1)) == chains_plugins(cs.take(j as int)) + plugins(
                            c.devices@,
                        ));
                        assert(decreases_to!(ds => ds[i as int]));
                        assert(decreases_to!(ds[i as int] => ds[i as int]->Parallel_0));
                        assert(decreases_to!(ds[i as int]->Parallel_0 => r.chains));
                        assert(decreases_to!(r.chains => r.chains@));
                        assert(decreases_to!(cs => cs[j as int]));
                        assert(decreases_to!(cs[j as int] => c.devices));
                        assert(decreases_to!(c.devices => c.devices@));
                    }
                    push_plugins(&c.devices, out);
                    proof {
                        assert((before + chains_plugins(cs.take(j as int))) + plugins(c.devices@) =~= before + (
                        chains_plugins(cs.take(j as int)) + plugins(c.devices@)));
                    }
                    j += 1;
                }
                proof {
                    assert(cs.take(j as int) =~= cs);
                    assert(device_plugins(ds[i as int]) == chains_plugins(cs));
                }
            },
        }
        i += 1;
    }
    proof {
        assert(ds.take(i as int) =~= ds);
    }
}

// ---------------------------------------------------------------------------
// What runs
// ---------------------------------------------------------------------------

/// Whether `holds` says yes to a plugin.
pub open spec fn held<F: Fn(&PluginInstance) -> bool>(holds: F, p: PluginInstance) -> bool {
    call_ensures(holds, (&p,), true)
}

/// Whether a track is enabled itself and has no plugin that is waited for.
pub open spec fn ready<F: Fn(&PluginInstance) -> bool>(t: Track, holds: F) -> bool {
    t.enabled && !(exists|k: int|
        0 <= k < plugins(t.devices@).len() && held(holds, #[trigger] plugins(t.devices@)[k]))
}

/// The plugins of the tracks before place `n` that are effectively enabled.
pub open spec fn live_on_tracks(tracks: Seq<Track>, n: nat) -> Seq<PluginInstance>
    decreases n,
{
    if n == 0 || n > tracks.len() {
        Seq::empty()
    } else {
        let before = live_on_tracks(tracks, (n - 1) as nat);
        if lineage_ok(
            model::models(tracks),
            tracks[n - 1].id,
            tracks.len(),
            0,
            own_enabled(model::models(tracks)),
        ) {
            before + plugins(tracks[n - 1].devices@)
        } else {
            before
        }
    }
}

impl Song {
    /// Whether the track `track_id` and the groups above it satisfy `ok`.
    pub fn lineage_all(&self, track_id: u32, ok: &Vec<bool>) -> (r: bool)
        requires
            ok@.len() == self.tracks@.len(),
        ensures
            r == lineage_ok(self@.tracks, track_id, self@.tracks.len(), 0, ok@),
    {
        let ghost tm = self@.tracks;
        let cap: u128 = self.tracks.len() as u128;
        let mut id: u32 = track_id;
        let mut hops: u128 = 0;
        loop
            invariant
                tm == self@.tracks,
                cap == tm.len(),
                ok@.len() == tm.len(),
                hops <= cap + 1,
                cap <= usize::MAX,
                lineage_ok(tm, track_id, cap as nat, 0, ok@) == lineage_ok(tm, id, cap as nat, hops as nat, ok@),
            decreases cap + 2 - hops,
        {
            match self.track_index(id) {
                None => {
                    return hops > 0;
                },
                Some(i) => {
                    if !ok[i] {
                        return false;
                    }
                    if hops > cap {
                        return true;
                    }
                    assert(tm[i as int] == self.tracks@[i as int]@);
                    match self.tracks[i].parent_group_id {
                        None => {
                            return true;
                        },
                        Some(parent) => {
                            assert(lineage_ok(tm, id, cap as nat, hops as nat, ok@) == lineage_ok(
                                tm,
                                parent,
                                cap as nat,
                                hops as nat + 1,
                                ok@,
                            ));
                            id = parent;
                            hops += 1;
                        },
                    }
                },
            }
        }
    }

    /// The flags of the tracks themselves.
    fn enabled_flags(&self) -> (r: Vec<bool>)
        ensures
            r@ == own_enabled(self@.tracks),
    {
        let mut r: Vec<bool> = Vec::new();
        let mut i: usize = 0;
        while i < self.tracks.len()
            invariant
                i <= self.tracks@.len(),
                r@.len() == i,
                forall|k: int| 0 <= k < i ==> #[trigger] r@[k] == self@.tracks[k].enabled,
            decreases self.tracks@.len() - i,
        {
            assert(self@.tracks[i as int] == self.tracks@[i as int]@);
            r.push(self.tracks[i].enabled);
            i += 1;
        }
        assert(r@ =~= own_enabled(self@.tracks));
        r
    }

    /// Whether the track is enabled together with every group above it: the one
    /// question behind everything that a disabled track leaves.
    pub fn track_effectively_enabled(&self, track_id: u32) -> (r: bool)
        ensures
            r == effectively_enabled(self@.tracks, track_id),
    {
        if track_id == MASTER_TRACK_ID {
            return true;
        }
        let flags = self.enabled_flags();
        self.lineage_all(track_id, &flags)
    }

    /// [`Song::track_effectively_enabled`] of every track, in song order.
    pub fn effectively_enabled_mask(&self) -> (r: Vec<bool>)
        ensures
            r@.len() == self@.tracks.len(),
            forall|i: int|
                0 <= i < r@.len() ==> #[trigger] r@[i] == lineage_ok(
                    self@.tracks,
                    self@.tracks[i].id,
                    self@.tracks.len(),
                    0,
                    own_enabled(self@.tracks),
                ),
            forall|i: int|
                0 <= i < r@.len() && self@.tracks[i].id != MASTER_TRACK_ID ==> #[trigger] r@[i] == effectively_enabled(
                    self@.tracks,
                    self@.tracks[i].id,
                ),
    {
        let flags = self.enabled_flags();
        self.mask_of(&flags)
    }

    /// Which tracks satisfy `ok` together with the groups above them.
    pub fn mask_of(&self, ok: &Vec<bool>) -> (r: Vec<bool>)
        requires
            ok@.len() == self.tracks@.len(),
        ensures
            r@.len() == self@.tracks.len(),
            forall|i: int|
                0 <= i < r@.len() ==> #[trigger] r@[i] == lineage_ok(
                    self@.tracks,
                    self@.tracks[i].id,
                    self@.tracks.len(),
                    0,
                    ok@,
                ),
    {
        let mut r: Vec<bool> = Vec::new();
        let mut i: usize = 0;
        while i < self.tracks.len()
            invariant
                i <= self.tracks@.len(),
                ok@.len() == self.tracks@.len(),
                r@.len() == i,
                forall|k: int|
                    0 <= k < i ==> #[trigger] r@[k] == lineage_ok(
                        self@.tracks,
                        self@.tracks[k].id,
                        self@.tracks.len(),
                        0,
                        ok@,
                    ),
            decreases self.tracks@.len() - i,
        {
            assert(self@.tracks[i as int] == self.tracks@[i as int]@);
            r.push(self.lineage_all(self.tracks[i].id, ok));
            i += 1;
        }
        r
    }

    /// Which tracks the engine may run now: enabled together with every group
    /// above them, and none of those has a plugin that `holds` waits for, inside
    /// racks or not. A group that waits makes its children wait.
    pub fn executable_mask<F: Fn(&PluginInstance) -> bool>(&self, holds: F) -> (r: Vec<bool>)
        requires
            forall|p: &PluginInstance| #[trigger] call_requires(holds, (p,)),
            forall|p: &PluginInstance|
                !(#[trigger] call_ensures(holds, (p,), true) && call_ensures(holds, (p,), false)),
        ensures
            r@.len() == self@.tracks.len(),
            forall|i: int|
                0 <= i < r@.len() ==> #[trigger] r@[i] == lineage_ok(
                    self@.tracks,
                    self@.tracks[i].id,
                    self@.tracks.len(),
                    0,
                    Seq::new(self.tracks@.len(), |k: int| ready(self.tracks@[k], holds)),
                ),
    {
        let mut ok: Vec<bool> = Vec::new();
        let mut i: usize = 0;
        while i < self.tracks.len()
            invariant
                i <= self.tracks@.len(),
                ok@.len() == i,
                forall|p: &PluginInstance| #[trigger] call_requires(holds, (p,)),
                forall|p: &PluginInstance|
                    !(#[trigger] call_ensures(holds, (p,), true) && call_ensures(holds, (p,), false)),
                forall|k: int| 0 <= k < i ==> #[trigger] ok@[k] == ready(self.tracks@[k], holds),
            decreases self.tracks@.len() - i,
        {
            let t = &self.tracks[i];
            let mut ps: Vec<&PluginInstance> = Vec::new();
            push_plugins(&t.devices, &mut ps);
            assert(values(ps@) =~= plugins(t.devices@));
            let mut waits = false;
            let mut j: usize = 0;
            while j < ps.len()
                invariant
                    j <= ps@.len(),
                    values(ps@) == plugins(t.devices@),
                    forall|p: &PluginInstance| #[trigger] call_requires(holds, (p,)),
                    forall|p: &PluginInstance|
                        !(#[trigger] call_ensures(holds, (p,), true) && call_ensures(holds, (p,), false)),
                    waits == (exists|k: int| 0 <= k < j && held(holds, #[trigger] plugins(t.devices@)[k])),
                decreases ps@.len() - j,
            {
                assert(plugins(t.devices@)[j as int] == *ps@[j as int]);
                let h = holds(ps[j]);
                assert(h == held(holds, plugins(t.devices@)[j as int]));
                if h {
                    waits = true;
                }
                j += 1;
            }
            ok.push(t.enabled && !waits);
            i += 1;
        }
        assert(ok@ =~= Seq::new(self.tracks@.len(), |k: int| ready(self.tracks@[k], holds)));
        self.mask_of(&ok)
    }

    /// The plugins that have to be loaded: those of the effectively enabled
    /// tracks in song order, then those of the master bus.
    pub fn live_plugins(&self) -> (r: Vec<&PluginInstance>)
        ensures
            values(r@) == live_on_tracks(self.tracks@, self.tracks@.len()) + plugins(self.master_fx_chain@),
    {
        let mask = self.effectively_enabled_mask();
        let mut r: Vec<&PluginInstance> = Vec::new();
        let mut i: usize = 0;
        assert(values(r@) =~= live_on_tracks(self.tracks@, 0));
        while i < self.tracks.len()
            invariant
                i <= self.tracks@.len(),
                mask@.len() == self.tracks@.len(),
                forall|k: int|
                    0 <= k < mask@.len() ==> #[trigger] mask@[k] == lineage_ok(
                        self@.tracks,
                        self@.tracks[k].id,
                        self@.tracks.len(),
                        0,
                        own_enabled(self@.tracks),
                    ),
                values(r@) == live_on_tracks(self.tracks@, i as nat),
            decreases self.tracks@.len() - i,
        {
            assert(self@.tracks[i as int] == self.tracks@[i as int]@);
            if mask[i] {
                push_plugins(&self.tracks[i].devices, &mut r);
            }
            i += 1;
        }
        push_plugins(&self.master_fx_chain, &mut r);
        r
    }

    /// Whether the solo of a track silences others: only an effectively enabled
    /// track's does.
    pub fn solo_counts(&self, track: &Track) -> (r: bool)
        ensures
            r == (track.solo && effectively_enabled(self@.tracks, track.id)),
    {
        track.solo && self.track_effectively_enabled(track.id)
    }

    /// Whether a modulation source is evaluated: it is enabled, and the track it
    /// belongs to is effectively enabled. Sources of no track always qualify.
    pub fn mod_source_active(&self, source: &ModSource) -> (r: bool)
        ensures
            r == (source.enabled && (source.owner_track_id == 0 || effectively_enabled(
                self@.tracks,
                source.owner_track_id,
            ))),
    {
        source.enabled && (source.owner_track_id == 0 || self.track_effectively_enabled(source.owner_track_id))
    }
}

// ---------------------------------------------------------------------------
// Disabling
// ---------------------------------------------------------------------------

/// A row that the launcher plays falls silent; any other row stays.
pub open spec fn stopped(row: RowPlayback) -> RowPlayback {
    if row is Launcher {
        RowPlayback::LauncherStopped
    } else {
        row
    }
}

/// The lanes of a track with their rows stopped.
pub open spec fn stopped_lanes(lanes: Seq<LaneModel>) -> Seq<LaneModel> {
    Seq::new(lanes.len(), |i: int| LaneModel { launcher: stopped(lanes[i].launcher), ..lanes[i] })
}

/// A track with its row and the rows of its lanes stopped.
pub open spec fn stopped_track(t: TrackModel) -> TrackModel {
    TrackModel { launcher: stopped(t.launcher), automation_lanes: stopped_lanes(t.automation_lanes), ..t }
}

/// A track taken out of everything that runs: not armed, no row playing.
pub open spec fn settled_track(t: TrackModel) -> TrackModel {
    TrackModel { armed: false, ..stopped_track(t) }
}

/// Whether the track at place `i` is enabled together with every group above it.
pub open spec fn runs(tracks: Seq<TrackModel>, i: int) -> bool {
    lineage_ok(tracks, tracks[i].id, tracks.len(), 0, own_enabled(tracks))
}

/// The tracks with everything settled that does not run.
pub open spec fn settled(tracks: Seq<TrackModel>) -> Seq<TrackModel> {
    Seq::new(
        tracks.len(),
        |i: int|
            if runs(tracks, i) {
                tracks[i]
            } else {
                settled_track(tracks[i])
            },
    )
}

/// The tracks with the rows of those stopped that do not run.
pub open spec fn rows_stopped(tracks: Seq<TrackModel>) -> Seq<TrackModel> {
    Seq::new(
        tracks.len(),
        |i: int|
            if runs(tracks, i) {
                tracks[i]
            } else {
                stopped_track(tracks[i])
            },
    )
}

/// The tracks with the flag of those in `ids` set to `enabled`.
pub open spec fn with_enabled(tracks: Seq<TrackModel>, ids: Seq<u32>, enabled: bool) -> Seq<TrackModel> {
    Seq::new(
        tracks.len(),
        |i: int|
            if ids.contains(tracks[i].id) {
                TrackModel { enabled, ..tracks[i] }
            } else {
                tracks[i]
            },
    )
}

/// Whether setting the flag of the tracks in `ids` changes any.
pub open spec fn flag_changes(tracks: Seq<TrackModel>, ids: Seq<u32>, enabled: bool) -> bool {
    exists|i: int|
        0 <= i < tracks.len() && ids.contains((#[trigger] tracks[i]).id) && tracks[i].enabled != enabled
}

/// Stops the rows of lanes.
fn stop_lanes(lanes: &mut Vec<AutomationLane>)
    ensures
        model::models(final(lanes)@) == stopped_lanes(model::models(old(lanes)@)),
{
    let ghost before = lanes@;
    let mut i: usize = 0;
    while i < lanes.len()
        invariant
            lanes@.len() == before.len(),
            i <= lanes@.len(),
            forall|k: int|
                0 <= k < lanes@.len() ==> (#[trigger] lanes@[k])@ == if k < i {
                    (LaneModel { launcher: stopped(before[k]@.launcher), ..before[k]@ })
                } else {
                    before[k]@
                },
        decreases lanes@.len() - i,
    {
        if matches!(lanes[i].launcher, RowPlayback::Launcher { .. }) {
            lanes[i].launcher = RowPlayback::LauncherStopped;
        }
        i += 1;
    }
    assert(model::models(lanes@) =~= stopped_lanes(model::models(before)));
}

/// Stops the row of a track and the rows of its lanes.
fn stop_launcher_rows(t: &mut Track)
    ensures
        final(t)@ == stopped_track(old(t)@),
{
    if matches!(t.launcher, RowPlayback::Launcher { .. }) {
        t.launcher = RowPlayback::LauncherStopped;
    }
    stop_lanes(&mut t.automation_lanes);
}

/// Whether `ids` holds `id`.
pub fn holds_id(ids: &[u32], id: u32) -> (r: bool)
    ensures
        r == ids@.contains(id),
{
    let mut i: usize = 0;
    while i < ids.len()
        invariant
            i <= ids@.len(),
            forall|k: int| 0 <= k < i ==> ids@[k] != id,
        decreases ids@.len() - i,
    {
        if ids[i] == id {
            return true;
        }
        i += 1;
    }
    false
}

impl Song {
    /// Settles every track that does not run: disarms it and stops its rows.
    /// Every edit that makes a track effectively disabled ends with this.
    pub fn settle_disabled_tracks(&mut self)
        ensures
            final(self)@ == (SongModel { tracks: settled(old(self)@.tracks), ..old(self)@ }),
    {
        let ghost before = self@.tracks;
        let mask = self.effectively_enabled_mask();
        let mut i: usize = 0;
        while i < self.tracks.len()
            invariant
                before == old(self)@.tracks,
                self.tracks@.len() == before.len(),
                mask@.len() == before.len(),
                i <= before.len(),
                forall|k: int| 0 <= k < mask@.len() ==> #[trigger] mask@[k] == runs(before, k),
                forall|k: int|
                    0 <= k < before.len() ==> (#[trigger] self.tracks@[k])@ == if k < i && !runs(before, k) {
                        settled_track(before[k])
                    } else {
                        before[k]
                    },
                self@.master_fx_chain == old(self)@.master_fx_chain,
                self@.song_lanes == old(self)@.song_lanes,
                self@.song_mod_routings == old(self)@.song_mod_routings,
                self@.scenes == old(self)@.scenes,
                self@.clip_contents == old(self)@.clip_contents,
                self@.transpose == old(self)@.transpose,
            decreases before.len() - i,
        {
            if !mask[i] {
                self.tracks[i].armed = false;
                stop_launcher_rows(&mut self.tracks[i]);
            }
            i += 1;
        }
        assert(self@.tracks =~= settled(before));
    }

    /// Stops the rows of every track that does not run. Rows of such tracks are
    /// not among the launcher's rows; one left playing would start again the
    /// moment the track is enabled.
    pub fn stop_launcher_rows_on_disabled_tracks(&mut self)
        ensures
            final(self)@ == (SongModel { tracks: rows_stopped(old(self)@.tracks), ..old(self)@ }),
    {
        let ghost before = self@.tracks;
        let mask = self.effectively_enabled_mask();
        let mut i: usize = 0;
        while i < self.tracks.len()
            invariant
                before == old(self)@.tracks,
                self.tracks@.len() == before.len(),
                mask@.len() == before.len(),
                i <= before.len(),
                forall|k: int| 0 <= k < mask@.len() ==> #[trigger] mask@[k] == runs(before, k),
                forall|k: int|
                    0 <= k < before.len() ==> (#[trigger] self.tracks@[k])@ == if k < i && !runs(before, k) {
                        stopped_track(before[k])
                    } else {
                        before[k]
                    },
                self@.master_fx_chain == old(self)@.master_fx_chain,
                self@.song_lanes == old(self)@.song_lanes,
                self@.song_mod_routings == old(self)@.song_mod_routings,
                self@.scenes == old(self)@.scenes,
                self@.clip_contents == old(self)@.clip_contents,
                self@.transpose == old(self)@.transpose,
            decreases before.len() - i,
        {
            if !mask[i] {
                stop_launcher_rows(&mut self.tracks[i]);
            }
            i += 1;
        }
        assert(self@.tracks =~= rows_stopped(before));
    }

    /// Enables or disables tracks; ids that no track has are ignored. Returns
    /// whether any flag changed. Disabling settles every track that no longer
    /// runs; enabling brings neither arming nor playing rows back.
    pub fn set_tracks_enabled(&mut self, track_ids: &[u32], enabled: bool) -> (r: bool)
        ensures
            r == flag_changes(old(self)@.tracks, track_ids@, enabled),
            final(self)@ == (SongModel {
                tracks: if r && !enabled {
                    settled(with_enabled(old(self)@.tracks, track_ids@, enabled))
                } else {
                    with_enabled(old(self)@.tracks, track_ids@, enabled)
                },
                ..old(self)@
            }),
    {
        let ghost before = self@.tracks;
        let mut changed = false;
        let mut i: usize = 0;
        while i < self.tracks.len()
            invariant
                before == old(self)@.tracks,
                self.tracks@.len() == before.len(),
                i <= before.len(),
                forall|k: int|
                    0 <= k < before.len() ==> (#[trigger] self.tracks@[k])@ == if k < i && track_ids@.contains(
                        before[k].id,
                    ) {
                        (TrackModel { enabled, ..before[k] })
                    } else {
                        before[k]
                    },
                changed == (exists|k: int|
                    0 <= k < i && track_ids@.contains((#[trigger] before[k]).id) && before[k].enabled != enabled),
                self@.master_fx_chain == old(self)@.master_fx_chain,
                self@.song_lanes == old(self)@.song_lanes,
                self@.song_mod_routings == old(self)@.song_mod_routings,
                self@.scenes == old(self)@.scenes,
                self@.clip_contents == old(self)@.clip_contents,
                self@.transpose == old(self)@.transpose,
            decreases before.len() - i,
        {
            let ghost prev = self.tracks@;
            assert(before[i as int] == self.tracks@[i as int]@);
            let id: u32 = self.tracks[i].id;
            if holds_id(track_ids, id) {
                if self.tracks[i].enabled != enabled {
                    self.tracks[i].enabled = enabled;
                    changed = true;
                }
            }
            i += 1;
        }
        assert(self@.tracks =~= with_enabled(before, track_ids@, enabled));
        if changed && !enabled {
            self.settle_disabled_tracks();
        }
        changed
    }
}

/// What decides about enabling: ids, groups and flags.
pub open spec fn same_groups(a: Seq<TrackModel>, b: Seq<TrackModel>) -> bool {
    &&& a.len() == b.len()
    &&& forall|i: int|
        0 <= i < a.len() ==> (#[trigger] a[i]).id == b[i].id && a[i].parent_group_id == b[i].parent_group_id
}

proof fn lemma_same_place(a: Seq<TrackModel>, b: Seq<TrackModel>, id: u32, from: int)
    requires
        same_groups(a, b),
        0 <= from,
    ensures
        lookup::track_place_from(a, id, from) == lookup::track_place_from(b, id, from),
    decreases a.len() - from,
{
    if from < a.len() {
        assert(a[from].id == b[from].id);
        lemma_same_place(a, b, id, from + 1);
    }
}

proof fn lemma_same_lineage(a: Seq<TrackModel>, b: Seq<TrackModel>, id: u32, cap: nat, hops: nat, ok: Seq<bool>)
    requires
        same_groups(a, b),
    ensures
        lineage_ok(a, id, cap, hops, ok) == lineage_ok(b, id, cap, hops, ok),
    decreases cap + 2 - hops,
{
    lemma_same_place(a, b, id, 0);
    lookup::lemma_track_place(a, id);
    if let Some(i) = lookup::track_place(a, id) {
        assert(a[i].parent_group_id == b[i].parent_group_id);
        if hops <= cap {
            if let Some(parent) = a[i].parent_group_id {
                lemma_same_lineage(a, b, parent, cap, hops + 1, ok);
            }
        }
    }
}

/// Settling changes neither which tracks run nor, done again, anything.
pub proof fn law_settling_is_idempotent(tracks: Seq<TrackModel>)
    ensures
        settled(settled(tracks)) == settled(tracks),
        forall|i: int| 0 <= i < tracks.len() ==> #[trigger] runs(settled(tracks), i) == runs(tracks, i),
{
    let s = settled(tracks);
    assert(same_groups(tracks, s));
    assert(own_enabled(s) =~= own_enabled(tracks));
    assert forall|i: int| 0 <= i < tracks.len() implies #[trigger] runs(s, i) == runs(tracks, i) by {
        lemma_same_lineage(tracks, s, tracks[i].id, tracks.len(), 0, own_enabled(tracks));
        assert(s[i].id == tracks[i].id);
    }
    assert(settled(s) =~= s) by {
        assert forall|i: int| 0 <= i < s.len() implies settled(s)[i] == s[i] by {
            assert(runs(s, i) == runs(tracks, i));
            if !runs(tracks, i) {
                let t = tracks[i];
                assert(stopped_lanes(stopped_lanes(t.automation_lanes)) =~= stopped_lanes(t.automation_lanes));
            }
        }
    }
}

/// Disabling a group takes every track below it out, and enabling it again
/// leaves out exactly the tracks that are kept out otherwise: each flag is its
/// own.
pub proof fn law_group_flag_is_its_own(tracks: Seq<TrackModel>, group: u32)
    ensures
        forall|i: int|
            0 <= i < tracks.len() && tracks[i].id != group ==> (#[trigger] with_enabled(tracks, seq![group], false)[i]).enabled
                == tracks[i].enabled,
        with_enabled(with_enabled(tracks, seq![group], false), seq![group], true) == with_enabled(
            tracks,
            seq![group],
            true,
        ),
        forall|i: int, k: nat|
            0 <= i < tracks.len() && tracks[i].id != MASTER_TRACK_ID && lookup::track_place(tracks, tracks[i].id) == Some(i)
                && (#[trigger] group_above(tracks, i, k) matches Some(j) && tracks[j].id == group)
                ==> !effectively_enabled(with_enabled(tracks, seq![group], false), tracks[i].id),
{
    let off = with_enabled(tracks, seq![group], false);
    assert(seq![group].contains(group)) by {
        assert(seq![group][0] == group);
    }
    assert(with_enabled(off, seq![group], true) =~= with_enabled(tracks, seq![group], true));
    assert forall|i: int, k: nat|
        0 <= i < tracks.len() && tracks[i].id != MASTER_TRACK_ID && lookup::track_place(tracks, tracks[i].id) == Some(i)
            && (#[trigger] group_above(tracks, i, k) matches Some(j) && tracks[j].id == group) implies !effectively_enabled(
        off,
        tracks[i].id,
    ) by {
        assert(same_groups(tracks, off));
        lemma_same_place(tracks, off, tracks[i].id, 0);
        lemma_same_groups_above(tracks, off, i, k);
        lemma_group_above_place(tracks, i, k);
        law_enabled_with_every_group(off, tracks[i].id);
        assert(!off[group_above(off, i, k)->0].enabled);
    }
}

proof fn lemma_same_groups_above(a: Seq<TrackModel>, b: Seq<TrackModel>, i: int, k: nat)
    requires
        same_groups(a, b),
        0 <= i < a.len(),
    ensures
        group_above(a, i, k) == group_above(b, i, k),
    decreases k,
{
    if k > 0 {
        lemma_same_groups_above(a, b, i, (k - 1) as nat);
        lemma_group_above_place(a, i, (k - 1) as nat);
        if let Some(j) = group_above(a, i, (k - 1) as nat) {
            assert(a[j].parent_group_id == b[j].parent_group_id);
            if let Some(parent) = a[j].parent_group_id {
                lemma_same_place(a, b, parent, 0);
            }
        }
    }
}

// ---------------------------------------------------------------------------
// What is seen
// ---------------------------------------------------------------------------

/// The track at place `a` is the one at place `i`, or a group above it.
pub open spec fn at_or_above(tracks: Seq<TrackModel>, i: int, a: int) -> bool {
    exists|k: nat| #[trigger] group_above(tracks, i, k) == Some(a)
}

/// Whether the solo of the track at place `s` counts.
pub open spec fn solo_counted(tracks: Seq<TrackModel>, s: int) -> bool {
    tracks[s].solo && effectively_enabled(tracks, tracks[s].id)
}

/// Whether the track at place `i` is hidden: it does not run, it or a group
/// above it is muted, or a solo counts somewhere and none at, above or below it.
pub open spec fn hidden(tracks: Seq<TrackModel>, i: int) -> bool {
    ||| !effectively_enabled(tracks, tracks[i].id)
    ||| exists|a: int| 0 <= a < tracks.len() && tracks[a].muted && #[trigger] at_or_above(tracks, i, a)
    ||| (exists|s: int| 0 <= s < tracks.len() && #[trigger] solo_counted(tracks, s)) && !(exists|s: int|
        0 <= s < tracks.len() && #[trigger] solo_counted(tracks, s) && (at_or_above(tracks, i, s) || at_or_above(
            tracks,
            s,
            i,
        )))
}

/// Whether `v` holds `x`.
fn holds_place(v: &Vec<usize>, x: usize) -> (r: bool)
    ensures
        r == v@.contains(x),
{
    let mut i: usize = 0;
    while i < v.len()
        invariant
            i <= v@.len(),
            forall|k: int| 0 <= k < i ==> v@[k] != x,
        decreases v@.len() - i,
    {
        if v[i] == x {
            return true;
        }
        i += 1;
    }
    false
}

impl Song {
    /// The places of the track at place `i` and of the groups above it.
    fn lineage(&self, i: usize) -> (r: Vec<usize>)
        requires
            i < self.tracks@.len(),
        ensures
            forall|a: usize| r@.contains(a) <==> at_or_above(self@.tracks, i as int, a as int),
    {
        let ghost tm = self@.tracks;
        let n: usize = self.tracks.len();
        let mut r: Vec<usize> = Vec::new();
        r.push(i);
        let mut at: usize = i;
        let mut k: usize = 0;
        assert(group_above(tm, i as int, 0) == Some(i as int));
        while k < n
            invariant
                tm == self@.tracks,
                n == tm.len(),
                i < n,
                at < n,
                k <= n,
                r@.len() == k + 1,
                group_above(tm, i as int, k as nat) == Some(at as int),
                forall|q: int| 0 <= q <= k ==> group_above(tm, i as int, q as nat) == Some(#[trigger] r@[q] as int),
            ensures
                group_above(tm, i as int, k as nat) is Some,
                r@.len() == k + 1,
                forall|q: int| 0 <= q <= k ==> group_above(tm, i as int, q as nat) == Some(#[trigger] r@[q] as int),
                k >= n || group_above(tm, i as int, (k + 1) as nat) is None,
            decreases n - k,
        {
            assert(tm[at as int] == self.tracks@[at as int]@);
            let parent: u32 = match self.tracks[at].parent_group_id {
                Some(parent) => parent,
                None => {
                    break;
                },
            };
            match self.track_index(parent) {
                Some(j) => {
                    r.push(j);
                    at = j;
                    k += 1;
                },
                None => {
                    break;
                },
            }
        }
        proof {
            assert forall|a: usize| r@.contains(a) <==> at_or_above(tm, i as int, a as int) by {
                if r@.contains(a) {
                    let q = choose|q: int| 0 <= q < r@.len() && r@[q] == a;
                    assert(group_above(tm, i as int, q as nat) == Some(a as int));
                }
                if at_or_above(tm, i as int, a as int) {
                    let d = choose|d: nat| #[trigger] group_above(tm, i as int, d) == Some(a as int);
                    let early = lemma_group_met_early(tm, i as int, d);
                    if early > k {
                        lemma_group_below_exists(tm, i as int, (k + 1) as nat, early);
                    }
                    assert(r@[early as int] == a);
                }
            }
        }
        r
    }

    /// Whether the picture of a track is hidden, see [`hidden`]. A track that
    /// does not exist is.
    pub fn track_visually_silenced(&self, track_id: u32) -> (r: bool)
        ensures
            r == match lookup::track_place(self@.tracks, track_id) {
                Some(i) => hidden(self@.tracks, i),
                None => true,
            },
    {
        let ghost tm = self@.tracks;
        let i: usize = match self.track_index(track_id) {
            Some(i) => i,
            None => {
                return true;
            },
        };
        proof {
            lookup::lemma_track_place(tm, track_id);
        }
        if !self.track_effectively_enabled(track_id) {
            return true;
        }
        let above = self.lineage(i);
        let mut a: usize = 0;
        while a < self.tracks.len()
            invariant
                tm == self@.tracks,
                i < tm.len(),
                a <= tm.len(),
                lookup::track_place(tm, track_id) == Some(i as int),
                forall|x: usize| above@.contains(x) <==> at_or_above(tm, i as int, x as int),
                forall|k: int| 0 <= k < a ==> !(tm[k].muted && #[trigger] at_or_above(tm, i as int, k)),
            decreases tm.len() - a,
        {
            assert(tm[a as int] == self.tracks@[a as int]@);
            if self.tracks[a].muted && holds_place(&above, a) {
                assert(at_or_above(tm, i as int, a as int));
                return true;
            }
            a += 1;
        }
        let mut any = false;
        let mut s: usize = 0;
        while s < self.tracks.len()
            invariant
                tm == self@.tracks,
                i < tm.len(),
                s <= tm.len(),
                tm[i as int].id == track_id,
                effectively_enabled(tm, track_id),
                lookup::track_place(tm, track_id) == Some(i as int),
                forall|x: usize| above@.contains(x) <==> at_or_above(tm, i as int, x as int),
                forall|k: int| 0 <= k < tm.len() ==> !(tm[k].muted && #[trigger] at_or_above(tm, i as int, k)),
                any == (exists|k: int| 0 <= k < s && #[trigger] solo_counted(tm, k)),
                forall|k: int|
                    0 <= k < s && #[trigger] solo_counted(tm, k) ==> !at_or_above(tm, i as int, k) && !at_or_above(
                        tm,
                        k,
                        i as int,
                    ),
            decreases tm.len() - s,
        {
            assert(tm[s as int] == self.tracks@[s as int]@);
            if self.solo_counts(&self.tracks[s]) {
                assert(solo_counted(tm, s as int));
                any = true;
                let below = self.lineage(s);
                if holds_place(&above, s) || holds_place(&below, i) {
                    assert(at_or_above(tm, i as int, s as int) || at_or_above(tm, s as int, i as int));
                    return false;
                }
            }
            s += 1;
        }
        any
    }
}

} // verus!
