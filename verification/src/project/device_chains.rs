//! Devices in one chain.
//!
//! A track once had three chains: `midi_fx_chain`, `instrument` and
//! `fx_chain`. Now it has `devices`, in that order. What named a plugin by its
//! `slot` in one of the three names it by its `device_index`.

use crate::json;
use crate::json::{has_member, member, member_mut, put_member, take_member, Field, Json, Member, Number, Tree};
use vstd::prelude::*;
use vstd::string::*;

verus! {

/// A plugin named by its place in one of the three chains.
#[derive(Clone, Copy, Debug, PartialEq, Eq, Structural)]
pub enum PluginSlot {
    MidiFx(u32),
    Instrument,
    Fx(u32),
}

/// What of the three chains decides where a slot lands in the one.
#[derive(Clone, Copy, Debug, PartialEq, Eq, Structural)]
pub struct ChainShape {
    /// How many MIDI effects there are.
    pub midi: usize,
    /// Whether there is an instrument.
    pub instrument: bool,
}

/// The place of a slot in the one chain: MIDI effects, then the instrument, then
/// the effects. Places wrap around at 32 bits.
pub open spec fn slot_place(slot: PluginSlot, shape: ChainShape) -> u32 {
    match slot {
        PluginSlot::MidiFx(i) => i,
        PluginSlot::Instrument => shape.midi as u32,
        PluginSlot::Fx(i) => (((shape.midi + if shape.instrument {
            1int
        } else {
            0
        }) as u32 + i) % 0x1_0000_0000) as u32,
    }
}

/// The slot that a value stands for.
pub open spec fn slot_of(t: Tree) -> Option<PluginSlot> {
    match t {
        Tree::Text(s) => if s == "Instrument"@ {
            Some(PluginSlot::Instrument)
        } else {
            None
        },
        Tree::Object(f) => if f.len() != 1 {
            None
        } else if f[0].key == "Instrument"@ {
            if f[0].value == Tree::Null {
                Some(PluginSlot::Instrument)
            } else {
                None
            }
        } else {
            match f[0].value.unsigned() {
                Some(n) => if n > u32::MAX {
                    None
                } else if f[0].key == "MidiFx"@ {
                    Some(PluginSlot::MidiFx(n as u32))
                } else if f[0].key == "Fx"@ {
                    Some(PluginSlot::Fx(n as u32))
                } else {
                    None
                },
                None => None,
            }
        },
        _ => None,
    }
}

/// The members of a plugin parameter that is named by its place. One that has
/// its place already only loses the slot; a slot that does not read is dropped.
pub open spec fn placed(f: Seq<Field>, shape: ChainShape) -> Seq<Field> {
    match json::get(f, "slot"@) {
        None => f,
        Some(slot) => {
            let rest = json::without(f, "slot"@);
            match slot_of(slot) {
                Some(slot) => if json::has_key(f, "device_index"@) {
                    rest
                } else {
                    json::with(
                        rest,
                        "device_index"@,
                        Tree::Number(Number::Unsigned(slot_place(slot, shape) as u64)),
                    )
                },
                None => rest,
            }
        },
    }
}

/// A plugin parameter that is named by its place.
pub open spec fn placed_param(t: Tree, shape: ChainShape) -> Tree {
    match t {
        Tree::Object(f) => Tree::Object(placed(f, shape)),
        _ => t,
    }
}

/// A target whose plugin parameter is named by its place.
pub open spec fn placed_target(t: Tree, shape: ChainShape) -> Tree {
    t.map_at("PluginParam"@, |p: Tree| placed_param(p, shape))
}

/// A lane whose target is named by its place.
pub open spec fn placed_lane(t: Tree, shape: ChainShape) -> Tree {
    t.map_at("target"@, |p: Tree| placed_target(p, shape))
}

/// Lanes whose targets are named by their place.
pub open spec fn placed_lanes(t: Tree, shape: ChainShape) -> Tree {
    t.map_elements(|lane: Tree| placed_lane(lane, shape))
}

/// The elements of a member, none if it is not a list.
pub open spec fn list_at(t: Option<Tree>) -> Seq<Tree> {
    match t {
        Some(Tree::List(v)) => v,
        _ => Seq::empty(),
    }
}

/// The instrument of a track, if it has one.
pub open spec fn instrument_of(track: Tree) -> Option<Tree> {
    match track.at("instrument"@) {
        Some(t) => if t is Null {
            None
        } else {
            Some(t)
        },
        None => None,
    }
}

/// The shape of the three chains of a track.
pub open spec fn shape_of(track: Tree) -> ChainShape {
    ChainShape {
        midi: list_at(track.at("midi_fx_chain"@)).len() as usize,
        instrument: instrument_of(track) is Some,
    }
}

/// The three chains of a track, one behind the other.
pub open spec fn one_chain(track: Tree) -> Seq<Tree> {
    list_at(track.at("midi_fx_chain"@)) + (match instrument_of(track) {
        Some(t) => seq![t],
        None => Seq::empty(),
    }) + list_at(track.at("fx_chain"@))
}

/// The members of a track without the three chains.
pub open spec fn without_chains(f: Seq<Field>) -> Seq<Field> {
    json::without(json::without(json::without(f, "midi_fx_chain"@), "instrument"@), "fx_chain"@)
}

/// A track with one chain. A track that has devices keeps them, and one that had
/// nothing in its chains gets none.
pub open spec fn chained_track(track: Tree) -> Tree {
    match track {
        Tree::Object(f) => if list_at(json::get(f, "devices"@)).len() > 0 || one_chain(track).len() == 0 {
            Tree::Object(without_chains(f))
        } else {
            match track.map_at("automation_lanes"@, |lanes: Tree| placed_lanes(lanes, shape_of(track))) {
                Tree::Object(g) => Tree::Object(
                    json::with(without_chains(g), "devices"@, Tree::List(one_chain(track))),
                ),
                other => other,
            }
        },
        _ => track,
    }
}

/// Tracks with one chain each.
pub open spec fn chained_tracks(tracks: Tree) -> Tree {
    tracks.map_elements(|t: Tree| chained_track(t))
}

/// The shape of the chains of the track with id `id`: of the last, if several
/// have it.
pub open spec fn shape_by_id(tracks: Seq<Tree>, id: u64) -> Option<ChainShape>
    decreases tracks.len(),
{
    if tracks.len() == 0 {
        None
    } else if track_id(tracks.last()) == Some(id) {
        Some(shape_of(tracks.last()))
    } else {
        shape_by_id(tracks.drop_last(), id)
    }
}

/// The id of a track.
pub open spec fn track_id(track: Tree) -> Option<u64> {
    match track.at("id"@) {
        Some(t) => t.unsigned(),
        None => None,
    }
}

/// A plugin parameter that names its track, named by its place there. One whose
/// track is not there stays as it is.
pub open spec fn bound_param(t: Tree, tracks: Seq<Tree>) -> Tree {
    match t.at("track"@) {
        Some(id) => match id.unsigned() {
            Some(id) => match shape_by_id(tracks, id) {
                Some(shape) => placed_param(t, shape),
                None => t,
            },
            None => t,
        },
        None => t,
    }
}

/// A target that names its track.
pub open spec fn bound_target(t: Tree, tracks: Seq<Tree>) -> Tree {
    t.map_at("PluginParam"@, |p: Tree| bound_param(p, tracks))
}

/// A binding whose target names its track.
pub open spec fn placed_binding(t: Tree, tracks: Seq<Tree>) -> Tree {
    t.map_at("target"@, |p: Tree| bound_target(p, tracks))
}

/// Bindings whose targets name their tracks.
pub open spec fn placed_bindings(t: Tree, tracks: Seq<Tree>) -> Tree {
    t.map_elements(|b: Tree| placed_binding(b, tracks))
}

/// A song with one chain per track.
pub open spec fn chained_song(song: Tree) -> Tree {
    song.map_at("tracks"@, |t: Tree| chained_tracks(t)).map_at(
        "midi_bindings"@,
        |b: Tree| placed_bindings(b, list_at(song.at("tracks"@))),
    )
}

/// The place of a slot, see [`slot_place`].
fn slot_to_index(slot: PluginSlot, shape: ChainShape) -> (r: u32)
    ensures
        r == slot_place(slot, shape),
{
    match slot {
        PluginSlot::MidiFx(i) => i,
        PluginSlot::Instrument => shape.midi as u32,
        PluginSlot::Fx(i) => {
            let before: u128 = shape.midi as u128 + if shape.instrument {
                1
            } else {
                0
            };
            let n: u32 = before as u32;
            n.wrapping_add(i)
        },
    }
}

/// The slot that a value stands for, see [`slot_of`].
fn read_slot(value: &Json) -> (r: Option<PluginSlot>)
    ensures
        r == slot_of(value@),
{
    match value {
        Json::Text(s) => if crate::text::same_text(s.as_str(), "Instrument") {
            Some(PluginSlot::Instrument)
        } else {
            None
        },
        Json::Object(v) => {
            if v.len() != 1 {
                return None;
            }
            assert(json::fields(v@)[0] == json::field_model(v@[0]));
            if crate::text::same_text(v[0].key.as_str(), "Instrument") {
                return if matches!(v[0].value, Json::Null) {
                    Some(PluginSlot::Instrument)
                } else {
                    None
                };
            }
            let n: u64 = match v[0].value.as_u64() {
                Some(n) => n,
                None => {
                    return None;
                },
            };
            if n > u32::MAX as u64 {
                None
            } else if crate::text::same_text(v[0].key.as_str(), "MidiFx") {
                Some(PluginSlot::MidiFx(n as u32))
            } else if crate::text::same_text(v[0].key.as_str(), "Fx") {
                Some(PluginSlot::Fx(n as u32))
            } else {
                None
            }
        },
        _ => None,
    }
}

/// Names a plugin parameter by its place, see [`placed`].
fn resolve_slot(v: &mut Vec<Member>, shape: ChainShape)
    ensures
        json::fields(final(v)@) == placed(json::fields(old(v)@), shape),
{
    let had_index = has_member(v, "device_index");
    let slot = match take_member(v, "slot") {
        Some(slot) => slot,
        None => {
            proof {
                json::law_without(json::fields(old(v)@), "slot"@, "slot"@);
            }
            return;
        },
    };
    if !had_index {
        if let Some(slot) = read_slot(&slot) {
            put_member(v, "device_index", Json::unsigned(slot_to_index(slot, shape) as u64));
        }
    }
}

fn place_param(t: &mut Json, shape: ChainShape)
    ensures
        final(t)@ == placed_param(old(t)@, shape),
{
    match t {
        Json::Object(v) => resolve_slot(v, shape),
        _ => {},
    }
}

fn place_target(t: &mut Json, shape: ChainShape)
    ensures
        final(t)@ == placed_target(old(t)@, shape),
{
    match t {
        Json::Object(v) => {
            if let Some(p) = member_mut(v, "PluginParam") {
                place_param(p, shape);
            }
        },
        _ => {},
    }
}

fn place_lane(t: &mut Json, shape: ChainShape)
    ensures
        final(t)@ == placed_lane(old(t)@, shape),
{
    match t {
        Json::Object(v) => {
            if let Some(p) = member_mut(v, "target") {
                place_target(p, shape);
            }
        },
        _ => {},
    }
}

fn place_lanes(t: &mut Json, shape: ChainShape)
    ensures
        final(t)@ == placed_lanes(old(t)@, shape),
{
    match t {
        Json::List(v) => {
            let ghost start = json::trees(v@);
            let mut i: usize = 0;
            while i < v.len()
                invariant
                    v@.len() == start.len(),
                    i <= v@.len(),
                    forall|k: int|
                        0 <= k < v@.len() ==> json::tree(#[trigger] v@[k]) == if k < i {
                            placed_lane(start[k], shape)
                        } else {
                            start[k]
                        },
                decreases v@.len() - i,
            {
                place_lane(&mut v[i], shape);
                i += 1;
            }
            assert(json::trees(v@) =~= start.map_values(|lane: Tree| placed_lane(lane, shape)));
        },
        _ => {},
    }
}

/// How many elements a member has.
fn list_len(t: Option<&Json>) -> (r: usize)
    ensures
        r == list_at(match t {
            Some(j) => Some(j@),
            None => None,
        }).len(),
{
    match t {
        Some(Json::List(v)) => {
            assert(json::trees(v@).len() == v@.len());
            v.len()
        },
        _ => 0,
    }
}

/// The shape of the three chains of a track.
fn read_shape(track: &Json) -> (r: ChainShape)
    ensures
        r == shape_of(track@),
        r.midi == list_at(track@.at("midi_fx_chain"@)).len(),
{
    let midi: usize = list_len(track.get("midi_fx_chain"));
    let instrument = match track.get("instrument") {
        Some(t) => !matches!(t, Json::Null),
        None => false,
    };
    ChainShape { midi, instrument }
}

/// Puts the elements of a member behind others.
fn append_list(to: &mut Vec<Json>, t: Option<Json>)
    ensures
        json::trees(final(to)@) == json::trees(old(to)@) + list_at(match t {
            Some(j) => Some(j@),
            None => None,
        }),
{
    let ghost before = json::trees(to@);
    match t {
        Some(Json::List(v)) => {
            let mut v = v;
            let ghost more = json::trees(v@);
            to.append(&mut v);
            assert(json::trees(to@) =~= before + more);
        },
        _ => {
            assert(before + Seq::<Tree>::empty() =~= before);
        },
    }
}

/// Removing one member leaves the others.
proof fn lemma_other_member(f: Seq<Field>, key: Seq<char>, other: Seq<char>)
    requires
        key.len() != other.len(),
    ensures
        json::get(json::without(f, key), other) == json::get(f, other),
{
    json::law_without(f, key, other);
}

fn chain_track(track: &mut Json)
    ensures
        final(track)@ == chained_track(old(track)@),
{
    let shape = read_shape(track);
    let devices: usize = list_len(track.get("devices"));
    let effects: usize = list_len(track.get("fx_chain"));
    let ghost start = track@;
    proof {
        reveal_strlit("midi_fx_chain");
        reveal_strlit("instrument");
        reveal_strlit("fx_chain");
        reveal_strlit("automation_lanes");
        assert("midi_fx_chain"@.len() == 13);
        assert("instrument"@.len() == 10);
        assert("fx_chain"@.len() == 8);
        assert("automation_lanes"@.len() == 16);
    }
    match track {
        Json::Object(v) => {
            let ghost f = json::fields(v@);
            proof {
                let midi = list_at(start.at("midi_fx_chain"@));
                let effects = list_at(start.at("fx_chain"@));
                assert(one_chain(start).len() == midi.len() + (if shape.instrument {
                    1int
                } else {
                    0
                }) + effects.len());
                assert(json::get(f, "devices"@) == start.at("devices"@));
            }
            if devices > 0 || (shape.midi == 0 && !shape.instrument && effects == 0) {
                let _ = take_member(v, "midi_fx_chain");
                let _ = take_member(v, "instrument");
                let _ = take_member(v, "fx_chain");
            } else {
                if let Some(lanes) = member_mut(v, "automation_lanes") {
                    place_lanes(lanes, shape);
                }
                let ghost g = json::fields(v@);
                proof {
                    if let Some(lanes) = json::get(f, "automation_lanes"@) {
                        let placed = placed_lanes(lanes, shape);
                        json::law_with(f, "automation_lanes"@, placed, "midi_fx_chain"@);
                        json::law_with(f, "automation_lanes"@, placed, "instrument"@);
                        json::law_with(f, "automation_lanes"@, placed, "fx_chain"@);
                    }
                    let g1 = json::without(g, "midi_fx_chain"@);
                    lemma_other_member(g, "midi_fx_chain"@, "instrument"@);
                    lemma_other_member(g, "midi_fx_chain"@, "fx_chain"@);
                    lemma_other_member(g1, "instrument"@, "fx_chain"@);
                }
                let mut chain: Vec<Json> = Vec::new();
                assert(json::trees(chain@) =~= Seq::<Tree>::empty());
                append_list(&mut chain, take_member(v, "midi_fx_chain"));
                let ghost midi = list_at(start.at("midi_fx_chain"@));
                assert(json::trees(chain@) =~= midi);
                let instrument = take_member(v, "instrument");
                if let Some(t) = instrument {
                    if !matches!(t, Json::Null) {
                        chain.push(t);
                        assert(json::trees(chain@) =~= midi.push(t@));
                    }
                }
                let ghost front = midi + (match instrument_of(start) {
                    Some(t) => seq![t],
                    None => Seq::empty(),
                });
                assert(json::trees(chain@) =~= front);
                append_list(&mut chain, take_member(v, "fx_chain"));
                assert(json::trees(chain@) =~= one_chain(start));
                put_member(v, "devices", Json::List(chain));
            }
        },
        _ => {},
    }
}

fn chain_tracks(tracks: &mut Json)
    ensures
        final(tracks)@ == chained_tracks(old(tracks)@),
{
    match tracks {
        Json::List(v) => {
            let ghost start = json::trees(v@);
            let mut i: usize = 0;
            while i < v.len()
                invariant
                    v@.len() == start.len(),
                    i <= v@.len(),
                    forall|k: int|
                        0 <= k < v@.len() ==> json::tree(#[trigger] v@[k]) == if k < i {
                            chained_track(start[k])
                        } else {
                            start[k]
                        },
                decreases v@.len() - i,
            {
                chain_track(&mut v[i]);
                i += 1;
            }
            assert(json::trees(v@) =~= start.map_values(|t: Tree| chained_track(t)));
        },
        _ => {},
    }
}

/// The shapes of the chains of the tracks that have an id.
struct ChainShapes {
    shapes: Vec<(u64, ChainShape)>,
    tracks: Ghost<Seq<Tree>>,
}

impl ChainShapes {
    /// The tracks that the shapes are of.
    pub closed spec fn tracks(self) -> Seq<Tree> {
        self.tracks@
    }

    pub closed spec fn valid(self) -> bool {
        forall|id: u64| last_shape(self.shapes@, id) == #[trigger] shape_by_id(self.tracks@, id)
    }
}

/// The last shape that is listed for an id.
spec fn last_shape(v: Seq<(u64, ChainShape)>, id: u64) -> Option<ChainShape>
    decreases v.len(),
{
    if v.len() == 0 {
        None
    } else if v.last().0 == id {
        Some(v.last().1)
    } else {
        last_shape(v.drop_last(), id)
    }
}

/// The shapes of the chains of the tracks of a song.
fn read_shapes(song: &Json) -> (r: ChainShapes)
    ensures
        r.valid(),
        r.tracks() == list_at(song@.at("tracks"@)),
{
    let mut shapes: Vec<(u64, ChainShape)> = Vec::new();
    let ghost all = list_at(song@.at("tracks"@));
    match song.get("tracks") {
        Some(Json::List(v)) => {
            assert(json::trees(v@) == all);
            let mut i: usize = 0;
            assert(all.take(0) =~= Seq::<Tree>::empty());
            while i < v.len()
                invariant
                    json::trees(v@) == all,
                    i <= v@.len(),
                    forall|id: u64| last_shape(shapes@, id) == #[trigger] shape_by_id(all.take(i as int), id),
                decreases v@.len() - i,
            {
                proof {
                    assert(all[i as int] == json::tree(v@[i as int]));
                    assert(all.take(i + 1).drop_last() =~= all.take(i as int));
                }
                let ghost before = shapes@;
                if let Some(t) = v[i].get("id") {
                    if let Some(id) = t.as_u64() {
                        shapes.push((id, read_shape(&v[i])));
                        assert(shapes@.drop_last() =~= before);
                    }
                }
                assert forall|id: u64| last_shape(shapes@, id) == #[trigger] shape_by_id(all.take(i + 1), id) by {
                    let upto = all.take(i + 1);
                    assert(upto.last() == all[i as int]);
                    assert(last_shape(before, id) == shape_by_id(all.take(i as int), id));
                    assert(shape_by_id(upto, id) == (if track_id(upto.last()) == Some(id) {
                        Some(shape_of(upto.last()))
                    } else {
                        shape_by_id(upto.drop_last(), id)
                    }));
                }
                i += 1;
            }
            assert(all.take(i as int) =~= all);
        },
        _ => {},
    }
    ChainShapes { shapes, tracks: Ghost(all) }
}

impl ChainShapes {
    /// The shape of the chains of the track with id `id`.
    fn find(&self, id: u64) -> (r: Option<ChainShape>)
        requires
            self.valid(),
        ensures
            r == shape_by_id(self.tracks(), id),
    {
        let mut i: usize = self.shapes.len();
        let ghost s = self.shapes@;
        assert(s.take(i as int) =~= s);
        while i > 0
            invariant
                self.valid(),
                s == self.shapes@,
                i <= s.len(),
                last_shape(s, id) == last_shape(s.take(i as int), id),
            decreases i,
        {
            i -= 1;
            assert(s.take(i + 1).drop_last() =~= s.take(i as int));
            if self.shapes[i].0 == id {
                assert(last_shape(s, id) == shape_by_id(self.tracks@, id));
                return Some(self.shapes[i].1);
            }
        }
        assert(last_shape(s, id) == shape_by_id(self.tracks@, id));
        None
    }
}

fn bind_param(t: &mut Json, shapes: &ChainShapes)
    requires
        shapes.valid(),
    ensures
        final(t)@ == bound_param(old(t)@, shapes.tracks()),
{
    let id: u64 = match t.get("track") {
        Some(id) => match id.as_u64() {
            Some(id) => id,
            None => {
                return;
            },
        },
        None => {
            return;
        },
    };
    if let Some(shape) = shapes.find(id) {
        place_param(t, shape);
    }
}

fn bind_target(t: &mut Json, shapes: &ChainShapes)
    requires
        shapes.valid(),
    ensures
        final(t)@ == bound_target(old(t)@, shapes.tracks()),
{
    match t {
        Json::Object(v) => {
            if let Some(p) = member_mut(v, "PluginParam") {
                bind_param(p, shapes);
            }
        },
        _ => {},
    }
}

fn place_binding(t: &mut Json, shapes: &ChainShapes)
    requires
        shapes.valid(),
    ensures
        final(t)@ == placed_binding(old(t)@, shapes.tracks()),
{
    match t {
        Json::Object(v) => {
            if let Some(p) = member_mut(v, "target") {
                bind_target(p, shapes);
            }
        },
        _ => {},
    }
}

fn place_bindings(t: &mut Json, shapes: &ChainShapes)
    requires
        shapes.valid(),
    ensures
        final(t)@ == placed_bindings(old(t)@, shapes.tracks()),
{
    match t {
        Json::List(v) => {
            let ghost start = json::trees(v@);
            let ghost tracks = shapes.tracks();
            let mut i: usize = 0;
            while i < v.len()
                invariant
                    shapes.valid(),
                    tracks == shapes.tracks(),
                    v@.len() == start.len(),
                    i <= v@.len(),
                    forall|k: int|
                        0 <= k < v@.len() ==> json::tree(#[trigger] v@[k]) == if k < i {
                            placed_binding(start[k], tracks)
                        } else {
                            start[k]
                        },
                decreases v@.len() - i,
            {
                place_binding(&mut v[i], shapes);
                i += 1;
            }
            assert(json::trees(v@) =~= start.map_values(|b: Tree| placed_binding(b, tracks)));
        },
        _ => {},
    }
}

/// Puts the three chains of every track of a song into one, and names plugins
/// by their place in it. Tracks with devices stay, but for left-over chains.
pub fn migrate_legacy_device_chains(song: &mut Json)
    ensures
        final(song)@ == chained_song(old(song)@),
{
    let shapes = read_shapes(song);
    match song {
        Json::Object(v) => {
            if let Some(tracks) = member_mut(v, "tracks") {
                chain_tracks(tracks);
            }
            if let Some(bindings) = member_mut(v, "midi_bindings") {
                place_bindings(bindings, &shapes);
            }
        },
        _ => {},
    }
}

/// A song with one chain per track stays as it is, so chaining twice is
/// chaining once.
pub proof fn law_chaining_is_idempotent(song: Tree)
    ensures
        chained_song(chained_song(song)) == chained_song(song),
{
    if let Tree::Object(f) = song {
        reveal_strlit("tracks");
        reveal_strlit("midi_bindings");
        assert("tracks"@.len() == 6 && "midi_bindings"@.len() == 13);
        let tracks = json::get(f, "tracks"@);
        let f1 = match tracks {
            Some(t) => json::with(f, "tracks"@, chained_tracks(t)),
            None => f,
        };
        if let Some(t) = tracks {
            json::law_with(f, "tracks"@, chained_tracks(t), "midi_bindings"@);
            lemma_tracks_twice(t);
        }
        let before = list_at(tracks);
        let f2 = match json::get(f1, "midi_bindings"@) {
            Some(b) => json::with(f1, "midi_bindings"@, placed_bindings(b, before)),
            None => f1,
        };
        assert(chained_song(song) == Tree::Object(f2));
        if let Some(b) = json::get(f1, "midi_bindings"@) {
            json::law_with(f1, "midi_bindings"@, placed_bindings(b, before), "tracks"@);
        }
        if let Some(t) = tracks {
            assert(json::get(f2, "tracks"@) == Some(chained_tracks(t)));
            json::law_with(f2, "tracks"@, chained_tracks(t), "tracks"@);
        }
        let after = list_at(json::get(f2, "tracks"@));
        assert(after == before.map_values(|t: Tree| chained_track(t)));
        if let Some(b) = json::get(f1, "midi_bindings"@) {
            lemma_bindings_twice(b, before);
            json::law_with(f2, "midi_bindings"@, placed_bindings(b, before), "midi_bindings"@);
        }
    }
}

proof fn lemma_placed_twice(f: Seq<Field>, first: ChainShape, second: ChainShape)
    ensures
        placed(placed(f, first), second) == placed(f, first),
        json::get(placed(f, first), "track"@) == json::get(f, "track"@),
{
    reveal_strlit("slot");
    reveal_strlit("device_index");
    reveal_strlit("track");
    assert("slot"@.len() == 4 && "device_index"@.len() == 12 && "track"@.len() == 5);
    let rest = json::without(f, "slot"@);
    json::law_without(f, "slot"@, "track"@);
    if let Some(slot) = json::get(f, "slot"@) {
        if let Some(slot) = slot_of(slot) {
            let value = Tree::Number(Number::Unsigned(slot_place(slot, first) as u64));
            json::law_with(rest, "device_index"@, value, "slot"@);
            json::law_with(rest, "device_index"@, value, "track"@);
        }
    }
}

proof fn lemma_without_chains(f: Seq<Field>, other: Seq<char>)
    requires
        other.len() != 13,
        other.len() != 10,
        other.len() != 8,
    ensures
        json::get(without_chains(f), other) == json::get(f, other),
        json::get(without_chains(f), "midi_fx_chain"@) is None,
        json::get(without_chains(f), "instrument"@) is None,
        json::get(without_chains(f), "fx_chain"@) is None,
{
    reveal_strlit("midi_fx_chain");
    reveal_strlit("instrument");
    reveal_strlit("fx_chain");
    assert("midi_fx_chain"@.len() == 13);
    assert("instrument"@.len() == 10);
    assert("fx_chain"@.len() == 8);
    let f1 = json::without(f, "midi_fx_chain"@);
    let f2 = json::without(f1, "instrument"@);
    json::law_without(f, "midi_fx_chain"@, other);
    json::law_without(f1, "instrument"@, other);
    json::law_without(f2, "fx_chain"@, other);
    json::law_without(f1, "instrument"@, "midi_fx_chain"@);
    json::law_without(f2, "fx_chain"@, "midi_fx_chain"@);
    json::law_without(f2, "fx_chain"@, "instrument"@);
}

proof fn lemma_without_chains_stays(f: Seq<Field>)
    requires
        json::get(f, "midi_fx_chain"@) is None,
        json::get(f, "instrument"@) is None,
        json::get(f, "fx_chain"@) is None,
    ensures
        without_chains(f) == f,
        one_chain(Tree::Object(f)).len() == 0,
{
    json::law_without(f, "midi_fx_chain"@, "instrument"@);
    json::law_without(f, "instrument"@, "fx_chain"@);
    json::law_without(f, "fx_chain"@, "fx_chain"@);
}

proof fn lemma_track_twice(track: Tree)
    ensures
        chained_track(chained_track(track)) == chained_track(track),
        track_id(chained_track(track)) == track_id(track),
{
    if let Tree::Object(f) = track {
        reveal_strlit("devices");
        reveal_strlit("id");
        reveal_strlit("midi_fx_chain");
        reveal_strlit("instrument");
        reveal_strlit("fx_chain");
        reveal_strlit("automation_lanes");
        assert("devices"@.len() == 7 && "id"@.len() == 2 && "automation_lanes"@.len() == 16);
        assert("midi_fx_chain"@.len() == 13 && "instrument"@.len() == 10 && "fx_chain"@.len() == 8);
        if list_at(json::get(f, "devices"@)).len() > 0 || one_chain(track).len() == 0 {
            let g = without_chains(f);
            lemma_without_chains(f, "devices"@);
            lemma_without_chains(f, "id"@);
            lemma_without_chains_stays(g);
        } else {
            let shape = shape_of(track);
            let g = match json::get(f, "automation_lanes"@) {
                Some(lanes) => json::with(f, "automation_lanes"@, placed_lanes(lanes, shape)),
                None => f,
            };
            if let Some(lanes) = json::get(f, "automation_lanes"@) {
                json::law_with(f, "automation_lanes"@, placed_lanes(lanes, shape), "id"@);
            }
            let h = without_chains(g);
            lemma_without_chains(g, "id"@);
            let chain = Tree::List(one_chain(track));
            let r = json::with(h, "devices"@, chain);
            json::law_with(h, "devices"@, chain, "id"@);
            json::law_with(h, "devices"@, chain, "midi_fx_chain"@);
            json::law_with(h, "devices"@, chain, "instrument"@);
            json::law_with(h, "devices"@, chain, "fx_chain"@);
            assert(chained_track(track) == Tree::Object(r));
            lemma_without_chains_stays(r);
        }
    }
}

proof fn lemma_tracks_twice(tracks: Tree)
    ensures
        chained_tracks(chained_tracks(tracks)) == chained_tracks(tracks),
{
    if let Tree::List(v) = tracks {
        let once = v.map_values(|t: Tree| chained_track(t));
        let twice = once.map_values(|t: Tree| chained_track(t));
        assert forall|i: int| 0 <= i < v.len() implies twice[i] == once[i] by {
            lemma_track_twice(v[i]);
        }
        assert(twice =~= once);
    }
}

proof fn lemma_shape_stays(tracks: Seq<Tree>, id: u64)
    ensures
        shape_by_id(tracks.map_values(|t: Tree| chained_track(t)), id) is Some == shape_by_id(tracks, id) is Some,
    decreases tracks.len(),
{
    let after = tracks.map_values(|t: Tree| chained_track(t));
    if tracks.len() > 0 {
        lemma_track_twice(tracks.last());
        lemma_shape_stays(tracks.drop_last(), id);
        assert(after.drop_last() =~= tracks.drop_last().map_values(|t: Tree| chained_track(t)));
        assert(after.last() == chained_track(tracks.last()));
    }
}

proof fn lemma_binding_twice(b: Tree, tracks: Seq<Tree>)
    ensures
        placed_binding(placed_binding(b, tracks), tracks.map_values(|t: Tree| chained_track(t))) == placed_binding(
            b,
            tracks,
        ),
{
    let after = tracks.map_values(|t: Tree| chained_track(t));
    if let Tree::Object(f) = b {
        if let Some(target) = json::get(f, "target"@) {
            lemma_target_twice(target, tracks);
            json::law_with(f, "target"@, bound_target(target, tracks), "target"@);
            let g = json::with(f, "target"@, bound_target(target, tracks));
            json::law_with(g, "target"@, bound_target(target, tracks), "target"@);
        }
    }
}

proof fn lemma_target_twice(target: Tree, tracks: Seq<Tree>)
    ensures
        bound_target(bound_target(target, tracks), tracks.map_values(|t: Tree| chained_track(t))) == bound_target(
            target,
            tracks,
        ),
{
    let after = tracks.map_values(|t: Tree| chained_track(t));
    if let Tree::Object(f) = target {
        if let Some(p) = json::get(f, "PluginParam"@) {
            let q = bound_param(p, tracks);
            if let Tree::Object(m) = p {
                if let Some(id) = json::get(m, "track"@) {
                    if let Some(id) = id.unsigned() {
                        lemma_shape_stays(tracks, id);
                        if let Some(shape) = shape_by_id(tracks, id) {
                            lemma_placed_twice(m, shape, shape_by_id(after, id)->0);
                        }
                    }
                }
            }
            assert(bound_param(q, after) == q);
            json::law_with(f, "PluginParam"@, q, "PluginParam"@);
            let g = json::with(f, "PluginParam"@, q);
            json::law_with(g, "PluginParam"@, q, "PluginParam"@);
        }
    }
}

proof fn lemma_bindings_twice(bindings: Tree, tracks: Seq<Tree>)
    ensures
        placed_bindings(placed_bindings(bindings, tracks), tracks.map_values(|t: Tree| chained_track(t)))
            == placed_bindings(bindings, tracks),
{
    let after = tracks.map_values(|t: Tree| chained_track(t));
    if let Tree::List(v) = bindings {
        let once = v.map_values(|b: Tree| placed_binding(b, tracks));
        let twice = once.map_values(|b: Tree| placed_binding(b, after));
        assert forall|i: int| 0 <= i < v.len() implies twice[i] == once[i] by {
            lemma_binding_twice(v[i], tracks);
        }
        assert(twice =~= once);
    }
}

} // verus!
