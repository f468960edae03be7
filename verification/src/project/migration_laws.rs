//! What holds of documents that were brought into the present form.

use super::device_chains;
use super::device_chains::PluginSlot;
use super::sidechain;
use super::vocal;
use crate::json;
use crate::json::{Field, Number, Tree};
use vstd::prelude::*;
use vstd::string::*;

verus! {

/// What is listed; nothing, if it is not there.
pub open spec fn items(t: Option<Tree>) -> Seq<Tree> {
    match t {
        Some(Tree::List(v)) => v,
        _ => Seq::empty(),
    }
}

/// A number of a document.
pub open spec fn number(n: int) -> Tree {
    Tree::Number(Number::Unsigned(n as u64))
}

pub(crate) proof fn lemma_map_at(t: Tree, key: Seq<char>, f: spec_fn(Tree) -> Tree)
    ensures
        t.at(key) is Some ==> t.map_at(key, f).at(key) == Some(f(t.at(key)->0)),
        t.at(key) is None ==> t.map_at(key, f) == t,
        t is Object == t.map_at(key, f) is Object,
        forall|other: Seq<char>| other != key ==> #[trigger] t.map_at(key, f).at(other) == t.at(other),
{
    if let Tree::Object(m) = t {
        if let Some(v) = json::get(m, key) {
            json::law_with(m, key, f(v), key);
            assert forall|other: Seq<char>| other != key implies #[trigger] t.map_at(key, f).at(other) == t.at(
                other,
            ) by {
                json::law_with(m, key, f(v), other);
            }
        }
    }
}

// ---------------------------------------------------------------------------
// Chains
// ---------------------------------------------------------------------------

/// Whether a value is a slot of a chain with a number.
pub open spec fn is_slot(t: Tree, chain: Seq<char>, i: int) -> bool {
    &&& t is Object
    &&& t->Object_0.len() == 1
    &&& t->Object_0[0].key == chain
    &&& t->Object_0[0].value == number(i)
}

/// Whether a value is the slot of the instrument.
pub open spec fn is_instrument_slot(t: Tree) -> bool {
    ||| t == Tree::Text("Instrument"@)
    ||| t is Object && t->Object_0.len() == 1 && t->Object_0[0].key == "Instrument"@ && t->Object_0[0].value
        == Tree::Null
}

/// Whether a track has an instrument.
pub open spec fn has_instrument(track: Tree) -> bool {
    track.at("instrument"@) is Some && track.at("instrument"@)->0 !is Null
}

/// How many devices come before the effects of a track.
pub open spec fn before_effects(track: Tree) -> int {
    items(track.at("midi_fx_chain"@)).len() + if has_instrument(track) {
        1int
    } else {
        0
    }
}

/// Whether the devices of a track are its MIDI effects, then its instrument, then its
/// effects.
pub open spec fn is_chain_of(now: Seq<Tree>, track: Tree) -> bool {
    let midi = items(track.at("midi_fx_chain"@));
    let fx = items(track.at("fx_chain"@));
    &&& now.len() == before_effects(track) + fx.len()
    &&& forall|k: int| 0 <= k < midi.len() ==> #[trigger] now[k] == midi[k]
    &&& has_instrument(track) ==> now[midi.len() as int] == track.at("instrument"@)->0
    &&& forall|k: int| 0 <= k < fx.len() ==> now[before_effects(track) + k] == #[trigger] fx[k]
}

/// Whether a parameter that named its plugin by a slot names it by its place in the one
/// chain. One that has its place keeps it.
pub open spec fn is_named_by_place(now: Tree, was: Tree, track: Tree) -> bool {
    let slot = was.at("slot"@)->0;
    let index = now.at("device_index"@);
    &&& forall|key: Seq<char>| key != "slot"@ && key != "device_index"@ ==> #[trigger] now.at(key) == was.at(key)
    &&& now.at("slot"@) is None
    &&& was.at("device_index"@) is Some || was.at("slot"@) is None ==> index == was.at("device_index"@)
    &&& was.at("device_index"@) is None && was.at("slot"@) is Some ==> {
        &&& is_instrument_slot(slot) ==> index == Some(number(items(track.at("midi_fx_chain"@)).len() as int))
        &&& forall|i: int|
            0 <= i <= u32::MAX && #[trigger] is_slot(slot, "MidiFx"@, i) ==> index == Some(number(i))
        &&& forall|i: int|
            0 <= i && before_effects(track) + i <= u32::MAX && #[trigger] is_slot(slot, "Fx"@, i) ==> index == Some(
                number(before_effects(track) + i),
            )
    }
}

proof fn lemma_slot_names()
    ensures
        "MidiFx"@.len() == 6,
        "Fx"@.len() == 2,
        "Instrument"@.len() == 10,
        "slot"@.len() == 4,
        "device_index"@.len() == 12,
{
    reveal_strlit("MidiFx");
    reveal_strlit("Fx");
    reveal_strlit("Instrument");
    reveal_strlit("slot");
    reveal_strlit("device_index");
}

proof fn lemma_named_by_place(p: Tree, track: Tree)
    requires
        before_effects(track) <= u32::MAX,
        p is Object,
    ensures
        is_named_by_place(device_chains::placed_param(p, device_chains::shape_of(track)), p, track),
{
    lemma_slot_names();
    let shape = device_chains::shape_of(track);
    let f = p->Object_0;
    let now = device_chains::placed_param(p, shape);
    assert(shape.midi == items(track.at("midi_fx_chain"@)).len());
    assert(shape.instrument == has_instrument(track));
    json::lemma_key_place(f, "slot"@, 0);
    json::law_without(f, "slot"@, "device_index"@);
    let rest = json::without(f, "slot"@);
    if let Some(slot) = json::get(f, "slot"@) {
        if let Some(s) = device_chains::slot_of(slot) {
            let place = Tree::Number(Number::Unsigned(device_chains::slot_place(s, shape) as u64));
            json::law_with(rest, "device_index"@, place, "slot"@);
            assert forall|key: Seq<char>| key != "slot"@ && key != "device_index"@ implies #[trigger] now.at(key)
                == p.at(key) by {
                json::law_without(f, "slot"@, key);
                json::law_with(rest, "device_index"@, place, key);
            }
        } else {
            assert forall|key: Seq<char>| key != "slot"@ && key != "device_index"@ implies #[trigger] now.at(key)
                == p.at(key) by {
                json::law_without(f, "slot"@, key);
            }
        }
        if json::get(f, "device_index"@) is None {
            assert forall|i: int| 0 <= i <= u32::MAX && #[trigger] is_slot(slot, "MidiFx"@, i) implies now.at(
                "device_index"@,
            ) == Some(number(i)) by {
                assert(device_chains::slot_of(slot) == Some(PluginSlot::MidiFx(i as u32)));
            }
            assert forall|i: int|
                0 <= i && before_effects(track) + i <= u32::MAX && #[trigger] is_slot(slot, "Fx"@, i) implies now.at(
                "device_index"@,
            ) == Some(number(before_effects(track) + i)) by {
                assert(device_chains::slot_of(slot) == Some(PluginSlot::Fx(i as u32)));
            }
        }
    }
}

/// Whether a lane names its plugin by its place, and is as it was otherwise.
pub open spec fn is_lane_named_by_place(now: Tree, was: Tree, track: Tree) -> bool {
    let p = was.at("target"@)->0.at("PluginParam"@)->0;
    let q = now.at("target"@)->0.at("PluginParam"@)->0;
    if was.at("target"@) is Some && was.at("target"@)->0.at("PluginParam"@) is Some && p is Object {
        &&& forall|key: Seq<char>| key != "target"@ ==> #[trigger] now.at(key) == was.at(key)
        &&& now.at("target"@) is Some
        &&& now.at("target"@)->0.at("PluginParam"@) is Some
        &&& is_named_by_place(q, p, track)
    } else {
        forall|key: Seq<char>| #[trigger] now.at(key) == was.at(key)
    }
}

proof fn lemma_target(t: Tree, place: spec_fn(Tree) -> Tree)
    ensures
        ({
            let r = t.map_at("PluginParam"@, place);
            &&& t.at("PluginParam"@) is Some ==> r.at("PluginParam"@) == Some(place(t.at("PluginParam"@)->0))
            &&& t.at("PluginParam"@) is None ==> r == t
            &&& t.at("PluginParam"@) is Some && place(t.at("PluginParam"@)->0) == t.at("PluginParam"@)->0 ==> r == t
        }),
{
    lemma_map_at(t, "PluginParam"@, place);
    if let Tree::Object(f) = t {
        if let Some(v) = json::get(f, "PluginParam"@) {
            json::law_with(f, "PluginParam"@, v, "PluginParam"@);
        }
    }
}

proof fn lemma_lane(lane: Tree, track: Tree)
    requires
        before_effects(track) <= u32::MAX,
    ensures
        is_lane_named_by_place(device_chains::placed_lane(lane, device_chains::shape_of(track)), lane, track),
{
    let shape = device_chains::shape_of(track);
    lemma_map_at(lane, "target"@, |p: Tree| device_chains::placed_target(p, shape));
    if let Some(target) = lane.at("target"@) {
        lemma_target(target, |p: Tree| device_chains::placed_param(p, shape));
        if let Some(p) = target.at("PluginParam"@) {
            if p is Object {
                lemma_named_by_place(p, track);
            }
        }
    }
}

proof fn lemma_without_chains_at(f: Seq<Field>)
    ensures
        ({
            let g = device_chains::without_chains(f);
            &&& json::get(g, "midi_fx_chain"@) is None
            &&& json::get(g, "instrument"@) is None
            &&& json::get(g, "fx_chain"@) is None
            &&& forall|key: Seq<char>|
                key != "midi_fx_chain"@ && key != "instrument"@ && key != "fx_chain"@ ==> #[trigger] json::get(g, key)
                    == json::get(f, key)
        }),
{
    reveal_strlit("midi_fx_chain");
    reveal_strlit("instrument");
    reveal_strlit("fx_chain");
    assert("midi_fx_chain"@.len() == 13 && "instrument"@.len() == 10 && "fx_chain"@.len() == 8);
    let a = json::without(f, "midi_fx_chain"@);
    let b = json::without(a, "instrument"@);
    let g = device_chains::without_chains(f);
    json::law_without(f, "midi_fx_chain"@, "midi_fx_chain"@);
    json::law_without(a, "instrument"@, "midi_fx_chain"@);
    json::law_without(b, "fx_chain"@, "midi_fx_chain"@);
    json::law_without(b, "fx_chain"@, "instrument"@);
    assert forall|key: Seq<char>|
        key != "midi_fx_chain"@ && key != "instrument"@ && key != "fx_chain"@ implies #[trigger] json::get(g, key)
        == json::get(f, key) by {
        json::law_without(f, "midi_fx_chain"@, key);
        json::law_without(a, "instrument"@, key);
        json::law_without(b, "fx_chain"@, key);
    }
}

/// Whether a track is another one with its three chains as one. One that has devices
/// keeps them and its lanes.
pub open spec fn is_track_with_one_chain(now: Tree, was: Tree) -> bool {
    let lanes = items(was.at("automation_lanes"@));
    let new_lanes = items(now.at("automation_lanes"@));
    &&& now.at("midi_fx_chain"@) is None
    &&& now.at("instrument"@) is None
    &&& now.at("fx_chain"@) is None
    &&& forall|key: Seq<char>|
        key != "midi_fx_chain"@ && key != "instrument"@ && key != "fx_chain"@ && key != "devices"@ && key
            != "automation_lanes"@ ==> #[trigger] now.at(key) == was.at(key)
    &&& if items(was.at("devices"@)).len() > 0 || before_effects(was) + items(was.at("fx_chain"@)).len() == 0 {
        now.at("devices"@) == was.at("devices"@) && now.at("automation_lanes"@) == was.at("automation_lanes"@)
    } else {
        &&& now.at("devices"@) is Some
        &&& now.at("devices"@)->0 is List
        &&& is_chain_of(items(now.at("devices"@)), was)
        &&& new_lanes.len() == lanes.len()
        &&& before_effects(was) <= u32::MAX ==> forall|k: int|
            0 <= k < lanes.len() ==> is_lane_named_by_place(#[trigger] new_lanes[k], lanes[k], was)
    }
}

proof fn lemma_track_with_one_chain(track: Tree)
    requires
        track is Object,
    ensures
        is_track_with_one_chain(device_chains::chained_track(track), track),
{
    reveal_strlit("midi_fx_chain");
    reveal_strlit("instrument");
    reveal_strlit("fx_chain");
    reveal_strlit("devices");
    reveal_strlit("automation_lanes");
    assert("midi_fx_chain"@.len() == 13 && "instrument"@.len() == 10 && "fx_chain"@.len() == 8);
    assert("devices"@.len() == 7 && "automation_lanes"@.len() == 16);
    let f = track->Object_0;
    let shape = device_chains::shape_of(track);
    let one = device_chains::one_chain(track);
    let midi = items(track.at("midi_fx_chain"@));
    let fx = items(track.at("fx_chain"@));
    assert(one.len() == before_effects(track) + fx.len());
    if items(track.at("devices"@)).len() > 0 || one.len() == 0 {
        lemma_without_chains_at(f);
    } else {
        let place = |lanes: Tree| device_chains::placed_lanes(lanes, shape);
        lemma_map_at(track, "automation_lanes"@, place);
        let g = track.map_at("automation_lanes"@, place)->Object_0;
        lemma_without_chains_at(g);
        let h = device_chains::without_chains(g);
        let list = Tree::List(one);
        json::law_with(h, "devices"@, list, "midi_fx_chain"@);
        json::law_with(h, "devices"@, list, "instrument"@);
        json::law_with(h, "devices"@, list, "fx_chain"@);
        json::law_with(h, "devices"@, list, "automation_lanes"@);
        let now = device_chains::chained_track(track);
        assert(now == Tree::Object(json::with(h, "devices"@, list)));
        assert forall|key: Seq<char>|
            key != "midi_fx_chain"@ && key != "instrument"@ && key != "fx_chain"@ && key != "devices"@ && key
                != "automation_lanes"@ implies #[trigger] now.at(key) == track.at(key) by {
            json::law_with(h, "devices"@, list, key);
            assert(json::get(h, key) == json::get(g, key));
            assert(Tree::Object(g).at(key) == track.at(key));
        }
        assert(is_chain_of(one, track)) by {
            assert forall|k: int| 0 <= k < fx.len() implies one[before_effects(track) + k] == #[trigger] fx[k] by {}
        }
        assert(json::get(h, "automation_lanes"@) == json::get(g, "automation_lanes"@));
        let lanes = items(track.at("automation_lanes"@));
        let new_lanes = items(now.at("automation_lanes"@));
        if before_effects(track) <= u32::MAX {
            assert forall|k: int| 0 <= k < lanes.len() implies is_lane_named_by_place(
                #[trigger] new_lanes[k],
                lanes[k],
                track,
            ) by {
                lemma_lane(lanes[k], track);
            }
        }
    }
}

/// Every track of a song then has one chain: its MIDI effects, its instrument and its
/// effects, and its lanes name the plugins that they named.
pub proof fn law_three_chains_become_one(song: Tree, i: int)
    requires
        0 <= i < items(song.at("tracks"@)).len(),
        items(song.at("tracks"@))[i] is Object,
    ensures
        ({
            let was = items(song.at("tracks"@));
            let now = items(device_chains::chained_song(song).at("tracks"@));
            now.len() == was.len() && is_track_with_one_chain(now[i], was[i])
        }),
{
    reveal_strlit("tracks");
    reveal_strlit("midi_bindings");
    assert("tracks"@.len() == 6 && "midi_bindings"@.len() == 13);
    let was = items(song.at("tracks"@));
    let chain = |t: Tree| device_chains::chained_tracks(t);
    lemma_map_at(song, "tracks"@, chain);
    let mid = song.map_at("tracks"@, chain);
    lemma_map_at(mid, "midi_bindings"@, |b: Tree| device_chains::placed_bindings(b, device_chains::list_at(song.at("tracks"@))));
    lemma_track_with_one_chain(was[i]);
}

proof fn lemma_shape_by_id(tracks: Seq<Tree>, id: u64, i: int)
    requires
        0 <= i < tracks.len(),
        tracks[i].at("id"@) == Some(Tree::Number(Number::Unsigned(id))),
        forall|j: int|
            i < j < tracks.len() ==> (#[trigger] tracks[j]).at("id"@) != Some(Tree::Number(Number::Unsigned(id))),
    ensures
        device_chains::shape_by_id(tracks, id) == Some(device_chains::shape_of(tracks[i])),
    decreases tracks.len(),
{
    if i < tracks.len() - 1 {
        lemma_shape_by_id(tracks.drop_last(), id, i);
        let last = tracks[tracks.len() - 1];
        assert(last.at("id"@) != Some(Tree::Number(Number::Unsigned(id))));
    }
}

/// Every binding that names a plugin of a track by its slot then names it by its place
/// there, and is as it was otherwise.
pub proof fn law_bindings_name_plugins_by_place(song: Tree, b: int, i: int)
    requires
        0 <= b < items(song.at("midi_bindings"@)).len(),
        0 <= i < items(song.at("tracks"@)).len(),
        before_effects(items(song.at("tracks"@))[i]) <= u32::MAX,
        ({
            let param = items(song.at("midi_bindings"@))[b].at("target"@)->0.at("PluginParam"@)->0;
            let id = items(song.at("tracks"@))[i].at("id"@);
            &&& items(song.at("midi_bindings"@))[b].at("target"@) is Some
            &&& items(song.at("midi_bindings"@))[b].at("target"@)->0.at("PluginParam"@) is Some
            &&& id is Some
            &&& id->0 is Number
            &&& id->0->Number_0 is Unsigned
            &&& param.at("track"@) == id
            &&& forall|j: int|
                i < j < items(song.at("tracks"@)).len() ==> (#[trigger] items(song.at("tracks"@))[j]).at("id"@) != id
        }),
    ensures
        ({
            let was = items(song.at("midi_bindings"@));
            let now = items(device_chains::chained_song(song).at("midi_bindings"@));
            now.len() == was.len() && is_lane_named_by_place(now[b], was[b], items(song.at("tracks"@))[i])
        }),
{
    reveal_strlit("tracks");
    reveal_strlit("midi_bindings");
    assert("tracks"@.len() == 6 && "midi_bindings"@.len() == 13);
    let tracks = items(song.at("tracks"@));
    assert(tracks == device_chains::list_at(song.at("tracks"@)));
    let was = items(song.at("midi_bindings"@));
    let chain = |t: Tree| device_chains::chained_tracks(t);
    lemma_map_at(song, "tracks"@, chain);
    let mid = song.map_at("tracks"@, chain);
    lemma_map_at(mid, "midi_bindings"@, |b: Tree| device_chains::placed_bindings(b, tracks));
    let n = tracks[i].at("id"@)->0->Number_0->Unsigned_0;
    lemma_shape_by_id(tracks, n, i);
    let binding = was[b];
    lemma_map_at(binding, "target"@, |p: Tree| device_chains::bound_target(p, tracks));
    let target = binding.at("target"@)->0;
    lemma_target(target, |p: Tree| device_chains::bound_param(p, tracks));
    let p = target.at("PluginParam"@)->0;
    assert(device_chains::bound_param(p, tracks) == device_chains::placed_param(p, device_chains::shape_of(tracks[i])));
    lemma_named_by_place(p, tracks[i]);
}

// ---------------------------------------------------------------------------
// Side chains
// ---------------------------------------------------------------------------

/// Whether a value is a track of an old list, or none.
pub open spec fn is_source(t: Tree) -> bool {
    t == Tree::Null || exists|n: int| 0 <= n <= u32::MAX && t == #[trigger] number(n)
}

/// Whether a value is an old list of tracks with something in it.
pub open spec fn are_sources(t: Tree) -> bool {
    &&& t is List
    &&& t->List_0.len() > 0
    &&& forall|k: int| 0 <= k < t->List_0.len() ==> is_source(#[trigger] t->List_0[k])
}

/// Whether a value is a route that reads a track after its fader, or none.
pub open spec fn reads(route: Tree, source: Tree) -> bool {
    if source == Tree::Null {
        route == Tree::Null
    } else {
        let tap = route.at("tap"@)->0;
        &&& route.at("tap"@) is Some
        &&& tap.at("tap_point"@) == Some(Tree::Text("PostFader"@))
        &&& tap.at("source"@) is Some
        &&& tap.at("source"@)->0.at("Track"@) == Some(source)
    }
}

/// Whether routes read the tracks of a list, in order.
pub open spec fn read_all(routes: Seq<Tree>, sources: Seq<Tree>) -> bool {
    &&& routes.len() == sources.len()
    &&& forall|k: int| 0 <= k < sources.len() ==> reads(#[trigger] routes[k], sources[k])
}

proof fn lemma_source(t: Tree)
    ensures
        is_source(t) == sidechain::source_of(t) is Some,
{
    if let Tree::Number(Number::Unsigned(n)) = t {
        assert(t == number(n as int));
    }
}

proof fn lemma_route(t: Tree)
    requires
        is_source(t),
    ensures
        reads(sidechain::route_tree(t), t),
{
    lemma_source(t);
    if t != Tree::Null {
        let n = sidechain::source_of(t)->0->0;
        reveal_strlit("source");
        reveal_strlit("tap_point");
        assert("source"@.len() == 6 && "tap_point"@.len() == 9);
        let source = Tree::Object(seq![Field { key: "Track"@, value: Tree::Number(Number::Unsigned(n as u64)) }]);
        let tap = seq![
            Field { key: "source"@, value: source },
            Field { key: "tap_point"@, value: Tree::Text("PostFader"@) },
        ];
        let whole = seq![Field { key: "tap"@, value: Tree::Object(tap) }];
        json::lemma_key_place_is(source->Object_0, "Track"@, 0);
        json::lemma_key_place_is(tap, "source"@, 0);
        json::lemma_key_place_is(tap, "tap_point"@, 1);
        json::lemma_key_place_is(whole, "tap"@, 0);
    }
}

proof fn lemma_lifted_fields(f: Seq<Field>, key: Seq<char>)
    ensures
        json::get(sidechain::lifted_fields(f), key) == match json::get(f, key) {
            Some(v) => Some(sidechain::lifted(v)),
            None => None,
        },
{
    let g = sidechain::lifted_fields(f);
    json::lemma_key_place(f, key, 0);
    match json::key_place(f, key, 0) {
        Some(i) => {
            assert forall|k: int| 0 <= k < i implies (#[trigger] g[k]).key != key by {
                assert(f[k].key != key);
            }
            json::lemma_key_place_is(g, key, i);
        },
        None => {
            assert forall|k: int| 0 <= k < g.len() implies (#[trigger] g[k]).key != key by {
                assert(f[k].key != key);
            }
            json::lemma_key_absent(g, key);
        },
    }
}

/// Bringing side chains into the present form changes, of every object however deep, the
/// list of tracks: it is gone, and where there were no routes the routes read its tracks
/// after their faders, in order.
pub proof fn law_old_side_chains_become_routes(t: Tree)
    ensures
        ({
            let now = sidechain::lifted(t);
            let old = t.at("sidechain_sources"@);
            match t {
                Tree::Object(f) => {
                    &&& now is Object
                    &&& now.at("sidechain_sources"@) is None
                    &&& forall|key: Seq<char>|
                        key != "sidechain_sources"@ && key != "aux_inputs"@ ==> #[trigger] now.at(key) == (match t.at(
                            key,
                        ) {
                            Some(v) => Some(sidechain::lifted(v)),
                            None => None,
                        })
                    &&& if t.at("aux_inputs"@) is Some {
                        now.at("aux_inputs"@) == Some(sidechain::lifted(t.at("aux_inputs"@)->0))
                    } else if old is Some && are_sources(old->0) {
                        &&& now.at("aux_inputs"@) is Some
                        &&& now.at("aux_inputs"@)->0 is List
                        &&& read_all(now.at("aux_inputs"@)->0->List_0, old->0->List_0)
                    } else {
                        now.at("aux_inputs"@) is None
                    }
                },
                Tree::List(v) => now is List && now->List_0.len() == v.len() && forall|k: int|
                    0 <= k < v.len() ==> #[trigger] now->List_0[k] == sidechain::lifted(v[k]),
                _ => now == t,
            }
        }),
{
    if let Tree::Object(f) = t {
        let now = sidechain::lifted(t);
        let g = sidechain::lifted_fields(f);
        assert(now == Tree::Object(sidechain::lifted_members(g)));
        reveal_strlit("sidechain_sources");
        reveal_strlit("aux_inputs");
        assert("sidechain_sources"@.len() == 17 && "aux_inputs"@.len() == 10);
        lemma_lifted_fields(f, "sidechain_sources"@);
        lemma_lifted_fields(f, "aux_inputs"@);
        json::law_without(g, "sidechain_sources"@, "aux_inputs"@);
        let rest = json::without(g, "sidechain_sources"@);
        json::lemma_key_place(rest, "aux_inputs"@, 0);
        match json::get(f, "sidechain_sources"@) {
            None => {
                assert forall|key: Seq<char>|
                    key != "sidechain_sources"@ && key != "aux_inputs"@ implies #[trigger] now.at(key) == (match t.at(
                    key,
                ) {
                    Some(v) => Some(sidechain::lifted(v)),
                    None => None,
                }) by {
                    lemma_lifted_fields(f, key);
                }
            },
            Some(old) => {
                let lifted = sidechain::lifted(old);
                lemma_same_sources(old);
                let routes = Tree::List(lifted->List_0.map_values(|t: Tree| sidechain::route_tree(t)));
                json::law_with(rest, "aux_inputs"@, routes, "sidechain_sources"@);
                assert forall|key: Seq<char>|
                    key != "sidechain_sources"@ && key != "aux_inputs"@ implies #[trigger] now.at(key) == (match t.at(
                    key,
                ) {
                    Some(v) => Some(sidechain::lifted(v)),
                    None => None,
                }) by {
                    lemma_lifted_fields(f, key);
                    json::law_without(g, "sidechain_sources"@, key);
                    json::law_with(rest, "aux_inputs"@, routes, key);
                }
                if are_sources(old) {
                    assert forall|k: int| 0 <= k < old->List_0.len() implies reads(
                        #[trigger] routes->List_0[k],
                        old->List_0[k],
                    ) by {
                        lemma_route(old->List_0[k]);
                    }
                }
            },
        }
    }
}

proof fn lemma_same_sources(old: Tree)
    ensures
        are_sources(old) == (sidechain::is_source_list(sidechain::lifted(old)) && sidechain::lifted(old)->List_0.len() > 0),
        are_sources(old) ==> sidechain::lifted(old) == old,
{
    let lifted = sidechain::lifted(old);
    if let Tree::List(v) = old {
        let w = lifted->List_0;
        assert forall|k: int| 0 <= k < v.len() implies (is_source(#[trigger] v[k]) ==> w[k] == v[k])
            && is_source(v[k]) == sidechain::source_of(w[k]) is Some by {
            lemma_source(v[k]);
            assert(w[k] == sidechain::lifted(v[k]));
        }
        if are_sources(old) {
            assert(w =~= v);
            assert forall|k: int| 0 <= k < w.len() implies sidechain::source_of(#[trigger] w[k]) is Some by {
                assert(is_source(v[k]));
            }
        }
        if sidechain::is_source_list(lifted) && w.len() > 0 {
            assert forall|k: int| 0 <= k < v.len() implies is_source(#[trigger] old->List_0[k]) by {
                assert(sidechain::source_of(w[k]) is Some);
            }
        }
    }
}

// ---------------------------------------------------------------------------
// Voices
// ---------------------------------------------------------------------------

/// Whether a clip speaks with a voice: one that has a speaker keeps it, and any other
/// has the speaker and the style of the voice, as far as it has any.
pub open spec fn speaks_with(now: Tree, was: Tree, voice: Tree) -> bool {
    let speaker = voice.at("speaker_id"@);
    let style = voice.at("style_name"@);
    if was !is Object || was.at("speaker_id"@) is Some {
        now == was
    } else {
        &&& forall|key: Seq<char>| key != "speaker_id"@ && key != "style_name"@ ==> #[trigger] now.at(key) == was.at(key)
        &&& forall|n: int|
            0 < n <= u32::MAX && speaker == Some(#[trigger] number(n)) ==> now.at("speaker_id"@) == Some(number(n))
        &&& speaker is None || speaker == Some(number(0)) ==> now.at("speaker_id"@) is None
        &&& style is Some && style->0 is Text && style->0->Text_0.len() > 0 ==> now.at("style_name"@) == style
        &&& !(style is Some && style->0 is Text && style->0->Text_0.len() > 0) ==> now.at("style_name"@) == was.at(
            "style_name"@,
        )
    }
}

proof fn lemma_clip_speaks(clip: Tree, voice: Tree)
    ensures
        speaks_with(
            vocal::clip_with_voice(clip, vocal::voice_speaker(voice), vocal::voice_style(voice)),
            clip,
            voice,
        ),
{
    reveal_strlit("speaker_id");
    reveal_strlit("style_name");
    assert("speaker_id"@.len() == 10 && "style_name"@.len() == 10);
    assert("speaker_id"@[1] != "style_name"@[1]);
    if let Tree::Object(f) = clip {
        json::lemma_key_place(f, "speaker_id"@, 0);
        if !json::has_key(f, "speaker_id"@) {
            let speaker = vocal::voice_speaker(voice);
            let style = vocal::voice_style(voice);
            let said = Tree::Number(Number::Unsigned(speaker as u64));
            let spoken = if speaker != 0 {
                json::with(f, "speaker_id"@, said)
            } else {
                f
            };
            let now = vocal::clip_with_voice(clip, speaker, style);
            json::law_with(f, "speaker_id"@, said, "style_name"@);
            json::law_with(spoken, "style_name"@, Tree::Text(style), "speaker_id"@);
            assert forall|key: Seq<char>| key != "speaker_id"@ && key != "style_name"@ implies #[trigger] now.at(key)
                == clip.at(key) by {
                json::law_with(f, "speaker_id"@, said, key);
                json::law_with(spoken, "style_name"@, Tree::Text(style), key);
            }
        }
    }
}

/// The voice of every track goes to its clips, and the track is marked. Tracks without a
/// voice of their own stay as they are.
pub proof fn law_voices_go_to_clips(song: Tree, i: int)
    requires
        0 <= i < items(song.at("tracks"@)).len(),
    ensures
        ({
            let was = items(song.at("tracks"@))[i];
            let now = items(vocal::vocal_song(song).at("tracks"@))[i];
            let voice = was.at("source"@)->0.at("Vocal"@)->0;
            let clips = items(was.at("clips"@));
            &&& items(vocal::vocal_song(song).at("tracks"@)).len() == items(song.at("tracks"@)).len()
            &&& if was.at("source"@) is Some && was.at("source"@)->0.at("Vocal"@) is Some && voice is Object {
                &&& now.at("source"@) == Some(Tree::Text("Vocal"@))
                &&& forall|key: Seq<char>|
                    key != "source"@ && key != "clips"@ ==> #[trigger] now.at(key) == was.at(key)
                &&& items(now.at("clips"@)).len() == clips.len()
                &&& forall|k: int|
                    0 <= k < clips.len() ==> speaks_with(#[trigger] items(now.at("clips"@))[k], clips[k], voice)
            } else {
                now == was
            }
        }),
{
    let tracks = items(song.at("tracks"@));
    lemma_map_at(song, "tracks"@, |t: Tree| vocal::vocal_tracks(t));
    let was = tracks[i];
    let now = vocal::vocal_track(was);
    assert(items(vocal::vocal_song(song).at("tracks"@))[i] == now);
    if let Some(voice) = vocal::track_voice(was) {
        if let Tree::Object(f) = was {
            reveal_strlit("source");
            reveal_strlit("clips");
            assert("source"@.len() == 6 && "clips"@.len() == 5);
            let marked = Tree::Object(json::with(f, "source"@, Tree::Text("Vocal"@)));
            json::law_with(f, "source"@, Tree::Text("Vocal"@), "clips"@);
            let speaker = vocal::voice_speaker(voice);
            let style = vocal::voice_style(voice);
            lemma_map_at(marked, "clips"@, |clips: Tree| vocal::clips_with_voice(clips, speaker, style));
            assert forall|key: Seq<char>| key != "source"@ && key != "clips"@ implies #[trigger] now.at(key) == was.at(
                key,
            ) by {
                json::law_with(f, "source"@, Tree::Text("Vocal"@), key);
                assert(marked.at(key) == was.at(key));
            }
            let clips = items(was.at("clips"@));
            assert forall|k: int| 0 <= k < clips.len() implies speaks_with(
                #[trigger] items(now.at("clips"@))[k],
                clips[k],
                voice,
            ) by {
                lemma_clip_speaks(clips[k], voice);
            }
        }
    }
}

} // verus!
