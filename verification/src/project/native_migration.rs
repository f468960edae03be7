//! Channel strips as native devices.
//!
//! A track once had a `strip` with a compressor and an equaliser, and the song a
//! `master_strip` with a limiter besides. Now these are built-in devices of the
//! chains, and what automated a strip automates the device by its id. Targets
//! that never had a knob, and strip targets in the wrong place, are dropped.

use crate::json;
use crate::json::{has_member, member, member_mut, member_place, put_member, take_member, Field, Json, Member, Number, Tree};
use crate::model::channel_strip;
use crate::model::channel_strip::{EqBand, EqParam};
use crate::project::clip_content;
use crate::project::device_chains;
use crate::text::same_text;
use vstd::prelude::*;
use vstd::string::*;

verus! {

/// What becomes of a target.
pub enum Rewrite {
    Keep,
    Replace(Tree),
    Drop,
}

/// The devices that a strip became, by id: those of a track, or those of the
/// master.
#[derive(Clone, Copy, Debug, PartialEq, Eq, Structural)]
pub enum StripDevices {
    Track { comp: u64, eq: u64 },
    Master { bus: u64, tone: u64 },
}

// ---------------------------------------------------------------------------
// Names
// ---------------------------------------------------------------------------

/// The name of a value that names something and says no more: a text, or an
/// object with one member that is null.
pub open spec fn unit_name(t: Tree) -> Option<Seq<char>> {
    match t {
        Tree::Text(s) => Some(s),
        Tree::Object(f) => if f.len() == 1 && f[0].value == Tree::Null {
            Some(f[0].key)
        } else {
            None
        },
        _ => None,
    }
}

/// The name of a value that may say more: a text, or the first key.
pub open spec fn variant_name(t: Tree) -> Option<Seq<char>> {
    match t {
        Tree::Text(s) => Some(s),
        Tree::Object(f) => if f.len() > 0 {
            Some(f[0].key)
        } else {
            None
        },
        _ => None,
    }
}

/// Whether a name is one of a strip of a track.
pub open spec fn is_strip_name(s: Seq<char>) -> bool {
    s == "StripEqOn"@ || s == "StripCompOn"@ || s == "StripEq"@ || s == "StripComp"@
}

/// The band with a name.
pub open spec fn band_named(s: Seq<char>) -> Option<EqBand> {
    if s == "Hp"@ {
        Some(EqBand::Hp)
    } else if s == "Lp"@ {
        Some(EqBand::Lp)
    } else if s == "Lf"@ {
        Some(EqBand::Lf)
    } else if s == "Lmf"@ {
        Some(EqBand::Lmf)
    } else if s == "Hmf"@ {
        Some(EqBand::Hmf)
    } else if s == "Hf"@ {
        Some(EqBand::Hf)
    } else {
        None
    }
}

/// The parameter of a band with a name.
pub open spec fn eq_param_named(s: Seq<char>) -> Option<EqParam> {
    if s == "Freq"@ {
        Some(EqParam::Freq)
    } else if s == "Gain"@ {
        Some(EqParam::Gain)
    } else if s == "Q"@ {
        Some(EqParam::Q)
    } else {
        None
    }
}

/// Whether a value names a parameter of the compressor.
pub open spec fn names_comp_param(t: Tree) -> bool {
    unit_name(t) matches Some(s) && (s == "Threshold"@ || s == "Ratio"@ || s == "Attack"@ || s == "Release"@ || s
        == "Makeup"@ || s == "ScFreq"@)
}

/// Whether a value names a parameter that its band of the equaliser has.
pub open spec fn names_eq_param(t: Tree) -> bool {
    match (t.at("band"@), t.at("param"@)) {
        (Some(band), Some(param)) => match (unit_name(band), unit_name(param)) {
            (Some(band), Some(param)) => match (band_named(band), eq_param_named(param)) {
                (Some(band), Some(param)) => channel_strip::band_has_param(band, param),
                _ => false,
            },
            _ => false,
        },
        _ => false,
    }
}

/// Whether a value names one of the bands of the tone equaliser.
pub open spec fn names_tone_band(t: Tree, bands: Seq<Seq<char>>) -> bool {
    unit_name(t) matches Some(s) && bands.contains(s)
}

// ---------------------------------------------------------------------------
// Targets
// ---------------------------------------------------------------------------

/// An object with one member.
pub open spec fn single(key: Seq<char>, value: Tree) -> Tree {
    Tree::Object(seq![Field { key, value }])
}

/// A parameter of a native device, as a target.
pub open spec fn native_target(device: u64, param: Tree) -> Tree {
    single(
        "NativeParam"@,
        Tree::Object(
            seq![
                Field { key: "device_id"@, value: Tree::Number(Number::Unsigned(device)) },
                Field { key: "param"@, value: param },
            ],
        ),
    )
}

/// A parameter of a native device, if it exists.
pub open spec fn native_if(exists: bool, device: u64, key: Seq<char>, value: Tree) -> Rewrite {
    if exists {
        Rewrite::Replace(native_target(device, single(key, value)))
    } else {
        Rewrite::Drop
    }
}

/// What becomes of a target on a track.
pub open spec fn track_target(target: Tree, comp: u64, eq: u64) -> Rewrite {
    if target.at("MasterStrip"@) is Some {
        Rewrite::Drop
    } else {
        match target.at("TrackBuiltin"@) {
            None => Rewrite::Keep,
            Some(b) => if b == Tree::Text("StripCompOn"@) {
                native_if(true, comp, "On"@, Tree::Text("Comp"@))
            } else if b == Tree::Text("StripEqOn"@) {
                native_if(true, eq, "On"@, Tree::Text("Eq"@))
            } else {
                match b.at("StripComp"@) {
                    Some(p) => match p.at("param"@) {
                        Some(p) => native_if(names_comp_param(p), comp, "Comp"@, p),
                        None => Rewrite::Drop,
                    },
                    None => match b.at("StripEq"@) {
                        Some(p) => native_if(names_eq_param(p), eq, "Eq"@, p),
                        None => Rewrite::Keep,
                    },
                }
            },
        }
    }
}

/// The name in the bus compressor of what the master strip called by a name.
pub open spec fn bus_param(s: Seq<char>) -> Option<Seq<char>> {
    if s == "CompThreshold"@ {
        Some("Threshold"@)
    } else if s == "CompRatio"@ {
        Some("Ratio"@)
    } else if s == "CompAttack"@ {
        Some("Attack"@)
    } else if s == "CompRelease"@ {
        Some("Release"@)
    } else if s == "CompMakeup"@ {
        Some("Makeup"@)
    } else {
        None
    }
}

/// What becomes of a target on the master.
pub open spec fn master_target(target: Tree, bus: u64, tone: u64, bands: Seq<Seq<char>>) -> Rewrite {
    if is_strip_builtin(target) {
        Rewrite::Drop
    } else {
        match target.at("MasterStrip"@) {
            None => Rewrite::Keep,
            Some(m) => match m.at("EqGain"@) {
                Some(band) => native_if(names_tone_band(band, bands), tone, "ToneEq"@, band),
                None => match m {
                    Tree::Text(s) => if s == "CompOn"@ {
                        native_if(true, bus, "On"@, Tree::Text("BusComp"@))
                    } else if s == "EqOn"@ {
                        native_if(true, tone, "On"@, Tree::Text("ToneEq"@))
                    } else if bus_param(s) is Some {
                        native_if(true, bus, "BusComp"@, Tree::Text(bus_param(s)->0))
                    } else if s == "LimiterOn"@ {
                        Rewrite::Replace(single("MasterLimiter"@, Tree::Text("On"@)))
                    } else if s == "LimiterCeiling"@ {
                        Rewrite::Replace(single("MasterLimiter"@, Tree::Text("Ceiling"@)))
                    } else {
                        Rewrite::Drop
                    },
                    _ => Rewrite::Drop,
                },
            },
        }
    }
}

/// What becomes of a target.
pub open spec fn new_target(target: Tree, devices: StripDevices, bands: Seq<Seq<char>>) -> Rewrite {
    match devices {
        StripDevices::Track { comp, eq } => track_target(target, comp, eq),
        StripDevices::Master { bus, tone } => master_target(target, bus, tone, bands),
    }
}

/// What is left of a lane or routing: nothing, if its target is dropped.
pub open spec fn new_item(item: Tree, devices: StripDevices, bands: Seq<Seq<char>>) -> Seq<Tree> {
    match item.at("target"@) {
        None => seq![item],
        Some(target) => match new_target(target, devices, bands) {
            Rewrite::Keep => seq![item],
            Rewrite::Replace(t) => seq![Tree::Object(json::with(item->Object_0, "target"@, t))],
            Rewrite::Drop => Seq::empty(),
        },
    }
}

/// Lanes or routings with their targets rewritten, in order.
pub open spec fn new_items(v: Seq<Tree>, devices: StripDevices, bands: Seq<Seq<char>>) -> Seq<Tree>
    decreases v.len(),
{
    if v.len() == 0 {
        Seq::empty()
    } else {
        new_items(v.drop_last(), devices, bands) + new_item(v.last(), devices, bands)
    }
}

/// The members with the lanes or routings of one of them rewritten.
pub open spec fn with_new_targets(
    f: Seq<Field>,
    key: Seq<char>,
    devices: StripDevices,
    bands: Seq<Seq<char>>,
) -> Seq<Field> {
    match json::get(f, key) {
        Some(Tree::List(v)) => json::with(f, key, Tree::List(new_items(v, devices, bands))),
        _ => f,
    }
}

// ---------------------------------------------------------------------------
// Signs of the old form
// ---------------------------------------------------------------------------

/// Whether a target names a strip of a track.
pub open spec fn is_strip_builtin(target: Tree) -> bool {
    target.at("TrackBuiltin"@) matches Some(b) && variant_name(b) matches Some(s) && is_strip_name(s)
}

/// Whether a lane or routing has a target of the old form.
pub open spec fn is_old_item(item: Tree) -> bool {
    item.at("target"@) matches Some(t) && (t.at("MasterStrip"@) is Some || is_strip_builtin(t))
}

/// Whether a member lists a target of the old form.
pub open spec fn lists_old(t: Option<Tree>) -> bool {
    exists|i: int|
        0 <= i < device_chains::list_at(t).len() && #[trigger] is_old_item(device_chains::list_at(t)[i])
}

/// Whether a track has anything of the old form.
pub open spec fn is_old_track(track: Tree) -> bool {
    track.at("strip"@) is Some || lists_old(track.at("automation_lanes"@)) || lists_old(track.at("mod_routings"@))
}

/// Whether a song has anything of the old form.
pub open spec fn has_strips(song: Tree) -> bool {
    ||| song.at("master_strip"@) is Some
    ||| exists|i: int|
        0 <= i < device_chains::list_at(song.at("tracks"@)).len() && #[trigger] is_old_track(
            device_chains::list_at(song.at("tracks"@))[i],
        )
    ||| lists_old(song.at("song_lanes"@))
    ||| lists_old(song.at("song_mod_routings"@))
}

// ---------------------------------------------------------------------------
// Ids in use
// ---------------------------------------------------------------------------

/// The id of a node; zero if it has none.
pub open spec fn node_id(t: Tree) -> u64 {
    match t.at("id"@) {
        Some(n) => match n.unsigned() {
            Some(n) => n,
            None => 0,
        },
        None => 0,
    }
}

/// The largest id in a device: its own, and for a rack those of its chains and
/// of the devices in them.
pub open spec fn device_max(d: Tree) -> u64
    decreases d,
{
    match d.at("Parallel"@) {
        Some(p) => {
            match p.at("chains"@) {
                Some(Tree::List(v)) => {
                    proof {
                        json::lemma_at_is_smaller(d, "Parallel"@);
                        json::lemma_at_is_smaller(p, "chains"@);
                        assert(decreases_to!(Tree::List(v) => Tree::List(v)->List_0));
                    }
                    clip_content::larger(node_id(p), chains_max(v))
                },
                _ => node_id(p),
            }
        },
        None => match d.at("Native"@) {
            Some(n) => node_id(n),
            None => node_id(d),
        },
    }
}

/// The largest id in chains.
pub open spec fn chains_max(v: Seq<Tree>) -> u64
    decreases v,
{
    if v.len() == 0 {
        0
    } else {
        proof {
            assert(decreases_to!(v => v.drop_last()));
            assert(decreases_to!(v => v[v.len() - 1]));
        }
        clip_content::larger(chains_max(v.drop_last()), chain_max(v[v.len() - 1]))
    }
}

/// The largest id in a chain.
pub open spec fn chain_max(c: Tree) -> u64
    decreases c,
{
    match c.at("devices"@) {
        Some(Tree::List(v)) => {
            proof {
                json::lemma_at_is_smaller(c, "devices"@);
                assert(decreases_to!(Tree::List(v) => Tree::List(v)->List_0));
            }
            clip_content::larger(node_id(c), devices_max(v))
        },
        _ => node_id(c),
    }
}

/// The largest id in devices.
pub open spec fn devices_max(v: Seq<Tree>) -> u64
    decreases v,
{
    if v.len() == 0 {
        0
    } else {
        proof {
            assert(decreases_to!(v => v.drop_last()));
            assert(decreases_to!(v => v[v.len() - 1]));
        }
        clip_content::larger(devices_max(v.drop_last()), device_max(v[v.len() - 1]))
    }
}

/// The largest id in the devices of tracks.
pub open spec fn tracks_node_max(v: Seq<Tree>) -> u64
    decreases v.len(),
{
    if v.len() == 0 {
        0
    } else {
        clip_content::larger(
            tracks_node_max(v.drop_last()),
            devices_max(device_chains::list_at(v.last().at("devices"@))),
        )
    }
}

/// The largest id in the devices of a song.
pub open spec fn song_node_max(f: Seq<Field>) -> u64 {
    clip_content::larger(
        tracks_node_max(device_chains::list_at(json::get(f, "tracks"@))),
        devices_max(device_chains::list_at(json::get(f, "master_fx_chain"@))),
    )
}

/// One more, or the largest number there is.
pub open spec fn one_more(n: u64) -> u64 {
    if n == u64::MAX {
        n
    } else {
        (n + 1) as u64
    }
}

/// The device ids that the song counts; zero if it does not.
pub open spec fn counted_device_id(f: Seq<Field>) -> u64 {
    match json::get(f, "ids"@) {
        Some(ids) => match ids.at("next_device_id"@) {
            Some(t) => match t.unsigned() {
                Some(n) => n,
                None => 0,
            },
            None => 0,
        },
        None => 0,
    }
}

/// The first free device id.
pub open spec fn first_device_id(f: Seq<Field>) -> u64 {
    clip_content::larger(clip_content::larger(counted_device_id(f), one_more(song_node_max(f))), 1)
}

// ---------------------------------------------------------------------------
// Devices
// ---------------------------------------------------------------------------

/// The settings of a section of a strip, without its switch and without the
/// state of listening in.
pub open spec fn section_params(section: Option<Tree>) -> Tree {
    let body = match section {
        Some(Tree::Object(f)) => f,
        _ => Seq::empty(),
    };
    Tree::Object(json::without(json::without(body, "on"@), "sc_listen"@))
}

/// Whether a section of a strip was off.
pub open spec fn section_bypassed(section: Option<Tree>) -> bool {
    match section {
        Some(s) => s.at("on"@) != Some(Tree::Bool(true)),
        None => true,
    }
}

/// Whether a device is the built-in one of a kind.
pub open spec fn is_builtin(d: Tree, kind: Seq<char>) -> bool {
    match d.at("Native"@) {
        Some(n) => n.at("builtin"@) == Some(Tree::Bool(true)) && (n.at("params"@) matches Some(p)
            && p is Object && json::has_key(p->Object_0, kind)),
        None => false,
    }
}

/// The place of the first built-in device of a kind.
pub open spec fn builtin_place(v: Seq<Tree>, kind: Seq<char>, from: int) -> Option<int>
    decreases v.len() - from,
{
    if from < 0 || from >= v.len() {
        None
    } else if is_builtin(v[from], kind) {
        Some(from)
    } else {
        builtin_place(v, kind, from + 1)
    }
}

/// A native device with its id, settings and bypass set.
pub open spec fn native_with(n: Seq<Field>, id: u64, kind: Seq<char>, params: Tree, bypassed: bool) -> Seq<Field> {
    json::with(
        json::with(json::with(n, "id"@, Tree::Number(Number::Unsigned(id))), "params"@, single(kind, params)),
        "bypassed"@,
        Tree::Bool(bypassed),
    )
}

/// A new built-in device.
pub open spec fn builtin_device(id: u64, kind: Seq<char>, params: Tree, bypassed: bool) -> Tree {
    single(
        "Native"@,
        Tree::Object(
            seq![
                Field { key: "id"@, value: Tree::Number(Number::Unsigned(id)) },
                Field { key: "builtin"@, value: Tree::Bool(true) },
                Field { key: "ordinal"@, value: Tree::Number(Number::Unsigned(1)) },
                Field { key: "bypassed"@, value: Tree::Bool(bypassed) },
                Field { key: "params"@, value: single(kind, params) },
            ],
        ),
    )
}

/// Devices with a built-in one put in, its id, and the next free id.
pub struct Installed {
    pub devices: Seq<Tree>,
    pub id: u64,
    pub next: u64,
}

/// Devices with the built-in one of a kind set up: the one that is there, or a
/// new one at `at`, behind the others if `at` is beyond them.
pub open spec fn installed(
    v: Seq<Tree>,
    kind: Seq<char>,
    params: Tree,
    bypassed: bool,
    at: int,
    next: u64,
) -> Installed {
    match builtin_place(v, kind, 0) {
        Some(i) => {
            let n = v[i].at("Native"@)->0;
            let fresh = node_id(n) == 0;
            let id = if fresh {
                next
            } else {
                node_id(n)
            };
            Installed {
                devices: v.update(
                    i,
                    Tree::Object(
                        json::with(
                            v[i]->Object_0,
                            "Native"@,
                            Tree::Object(native_with(n->Object_0, id, kind, params, bypassed)),
                        ),
                    ),
                ),
                id,
                next: if fresh {
                    one_more(next)
                } else {
                    next
                },
            }
        },
        None => Installed {
            devices: v.insert(
                if at < v.len() {
                    at
                } else {
                    v.len() as int
                },
                builtin_device(next, kind, params, bypassed),
            ),
            id: next,
            next: one_more(next),
        },
    }
}

/// The members with an empty list at `key`, if nothing is there.
pub open spec fn with_list(f: Seq<Field>, key: Seq<char>) -> Seq<Field> {
    if json::has_key(f, key) {
        f
    } else {
        json::with(f, key, Tree::List(Seq::empty()))
    }
}

/// The section of a strip.
pub open spec fn section(strip: Option<Tree>, key: Seq<char>) -> Option<Tree> {
    match strip {
        Some(s) => s.at(key),
        None => None,
    }
}

/// The members of a track with its strip as devices, and the next free id.
pub open spec fn native_track_members(f: Seq<Field>, next: u64) -> (Seq<Field>, u64) {
    let strip = json::get(f, "strip"@);
    let g = with_list(json::without(f, "strip"@), "devices"@);
    match json::get(g, "devices"@) {
        Some(Tree::List(v)) => {
            let comp = section(strip, "comp"@);
            let eq = section(strip, "eq"@);
            let a = installed(v, "Comp"@, section_params(comp), section_bypassed(comp), v.len() as int, next);
            let b = installed(
                a.devices,
                "Eq"@,
                section_params(eq),
                section_bypassed(eq),
                a.devices.len() as int,
                a.next,
            );
            let devices = StripDevices::Track { comp: a.id, eq: b.id };
            let none = Seq::<Seq<char>>::empty();
            (
                with_new_targets(
                    with_new_targets(
                        json::with(g, "devices"@, Tree::List(b.devices)),
                        "automation_lanes"@,
                        devices,
                        none,
                    ),
                    "mod_routings"@,
                    devices,
                    none,
                ),
                b.next,
            )
        },
        _ => (g, next),
    }
}

/// A track with its strip as devices, and the next free id.
pub open spec fn native_track(track: Tree, next: u64) -> (Tree, u64) {
    match track {
        Tree::Object(f) => {
            let r = native_track_members(f, next);
            (Tree::Object(r.0), r.1)
        },
        _ => (track, next),
    }
}

/// Tracks with their strips as devices, in order, and the next free id.
pub open spec fn native_tracks(v: Seq<Tree>, next: u64) -> (Seq<Tree>, u64)
    decreases v.len(),
{
    if v.len() == 0 {
        (v, next)
    } else {
        let before = native_tracks(v.drop_last(), next);
        let track = native_track(v.last(), before.1);
        (before.0.push(track.0), track.1)
    }
}

/// The members of a song with the strips of its tracks as devices.
pub open spec fn with_native_tracks(f: Seq<Field>, next: u64) -> (Seq<Field>, u64) {
    match json::get(f, "tracks"@) {
        Some(Tree::List(v)) => {
            let r = native_tracks(v, next);
            (json::with(f, "tracks"@, Tree::List(r.0)), r.1)
        },
        _ => (f, next),
    }
}

/// The members of a song with the master strip as devices.
pub open spec fn with_native_master(f: Seq<Field>, next: u64, bands: Seq<Seq<char>>) -> (Seq<Field>, u64) {
    let strip = json::get(f, "master_strip"@);
    let bare = json::without(f, "master_strip"@);
    let limited = match section(strip, "limiter"@) {
        Some(l) => json::with(bare, "master_limiter"@, l),
        None => bare,
    };
    let g = with_list(limited, "master_fx_chain"@);
    match json::get(g, "master_fx_chain"@) {
        Some(Tree::List(v)) => {
            let comp = section(strip, "comp"@);
            let eq = section(strip, "eq"@);
            let a = installed(v, "BusComp"@, section_params(comp), section_bypassed(comp), 0, next);
            let b = installed(a.devices, "ToneEq"@, section_params(eq), section_bypassed(eq), 1, a.next);
            let devices = StripDevices::Master { bus: a.id, tone: b.id };
            (
                with_new_targets(
                    with_new_targets(
                        json::with(g, "master_fx_chain"@, Tree::List(b.devices)),
                        "song_lanes"@,
                        devices,
                        bands,
                    ),
                    "song_mod_routings"@,
                    devices,
                    bands,
                ),
                b.next,
            )
        },
        _ => (g, next),
    }
}

/// The members of a song with the next free device id written into its ids.
pub open spec fn with_device_count(f: Seq<Field>, next: u64) -> Seq<Field> {
    let number = Tree::Number(Number::Unsigned(next));
    match json::get(f, "ids"@) {
        None => json::with(f, "ids"@, single("next_device_id"@, number)),
        Some(Tree::Object(m)) => json::with(
            f,
            "ids"@,
            Tree::Object(json::with(m, "next_device_id"@, number)),
        ),
        Some(_) => f,
    }
}

/// The members of a song with its strips as devices.
pub open spec fn native_members(f: Seq<Field>, bands: Seq<Seq<char>>) -> Seq<Field> {
    let tracks = with_native_tracks(f, first_device_id(f));
    let master = with_native_master(tracks.0, tracks.1, bands);
    with_device_count(master.0, master.1)
}

/// A song with its strips as devices. A song without any stays as it is.
pub open spec fn native_song(song: Tree, bands: Seq<Seq<char>>) -> Tree {
    match song {
        Tree::Object(f) => if has_strips(song) {
            Tree::Object(native_members(f, bands))
        } else {
            song
        },
        _ => song,
    }
}

// ---------------------------------------------------------------------------
// Reading
// ---------------------------------------------------------------------------

/// The name of a value, see [`unit_name`].
fn read_unit_name(t: &Json) -> (r: Option<&str>)
    ensures
        match r {
            Some(s) => unit_name(t@) == Some(s@),
            None => unit_name(t@) is None,
        },
{
    match t {
        Json::Text(s) => Some(s.as_str()),
        Json::Object(v) => {
            if v.len() == 1 {
                assert(json::fields(v@)[0] == json::field_model(v@[0]));
                if matches!(v[0].value, Json::Null) {
                    return Some(v[0].key.as_str());
                }
            }
            None
        },
        _ => None,
    }
}

/// Whether a target names a strip of a track.
fn names_strip(target: &Json) -> (r: bool)
    ensures
        r == is_strip_builtin(target@),
{
    let b = match target.get("TrackBuiltin") {
        Some(b) => b,
        None => {
            return false;
        },
    };
    let name = match b {
        Json::Text(s) => s.as_str(),
        Json::Object(v) => {
            if v.len() == 0 {
                return false;
            }
            assert(json::fields(v@)[0] == json::field_model(v@[0]));
            v[0].key.as_str()
        },
        _ => {
            return false;
        },
    };
    same_text(name, "StripEqOn") || same_text(name, "StripCompOn") || same_text(name, "StripEq") || same_text(
        name,
        "StripComp",
    )
}

fn read_band(name: &str) -> (r: Option<EqBand>)
    ensures
        r == band_named(name@),
{
    if same_text(name, "Hp") {
        Some(EqBand::Hp)
    } else if same_text(name, "Lp") {
        Some(EqBand::Lp)
    } else if same_text(name, "Lf") {
        Some(EqBand::Lf)
    } else if same_text(name, "Lmf") {
        Some(EqBand::Lmf)
    } else if same_text(name, "Hmf") {
        Some(EqBand::Hmf)
    } else if same_text(name, "Hf") {
        Some(EqBand::Hf)
    } else {
        None
    }
}

fn read_eq_param(name: &str) -> (r: Option<EqParam>)
    ensures
        r == eq_param_named(name@),
{
    if same_text(name, "Freq") {
        Some(EqParam::Freq)
    } else if same_text(name, "Gain") {
        Some(EqParam::Gain)
    } else if same_text(name, "Q") {
        Some(EqParam::Q)
    } else {
        None
    }
}

fn is_comp_param(t: &Json) -> (r: bool)
    ensures
        r == names_comp_param(t@),
{
    match read_unit_name(t) {
        Some(s) => same_text(s, "Threshold") || same_text(s, "Ratio") || same_text(s, "Attack") || same_text(
            s,
            "Release",
        ) || same_text(s, "Makeup") || same_text(s, "ScFreq"),
        None => false,
    }
}

fn is_eq_param(t: &Json) -> (r: bool)
    ensures
        r == names_eq_param(t@),
{
    match (t.get("band"), t.get("param")) {
        (Some(band), Some(param)) => match (read_unit_name(band), read_unit_name(param)) {
            (Some(band), Some(param)) => match (read_band(band), read_eq_param(param)) {
                (Some(band), Some(param)) => band.has_param(param),
                _ => false,
            },
            _ => false,
        },
        _ => false,
    }
}

/// The names of the bands of the tone equaliser.
pub open spec fn band_names(bands: Seq<String>) -> Seq<Seq<char>> {
    bands.map_values(|s: String| s@)
}

fn is_tone_band(t: &Json, bands: &Vec<String>) -> (r: bool)
    ensures
        r == names_tone_band(t@, band_names(bands@)),
{
    let name = match read_unit_name(t) {
        Some(s) => s,
        None => {
            return false;
        },
    };
    let ghost names = band_names(bands@);
    let mut i: usize = 0;
    while i < bands.len()
        invariant
            names == band_names(bands@),
            unit_name(t@) == Some(name@),
            i <= bands@.len(),
            forall|k: int| 0 <= k < i ==> #[trigger] names[k] != name@,
        decreases bands@.len() - i,
    {
        assert(names[i as int] == bands@[i as int]@);
        if same_text(bands[i].as_str(), name) {
            return true;
        }
        i += 1;
    }
    false
}

// ---------------------------------------------------------------------------
// Rewriting targets
// ---------------------------------------------------------------------------

/// What becomes of a target.
enum Verdict {
    Keep,
    Replace(Json),
    Drop,
}

impl Verdict {
    spec fn model(self) -> Rewrite {
        match self {
            Verdict::Keep => Rewrite::Keep,
            Verdict::Replace(j) => Rewrite::Replace(j@),
            Verdict::Drop => Rewrite::Drop,
        }
    }
}

fn make_native_if(exists: bool, device: u64, key: &str, value: Json) -> (r: Verdict)
    ensures
        r.model() == native_if(exists, device, key@, value@),
{
    if !exists {
        return Verdict::Drop;
    }
    let mut v: Vec<Member> = Vec::new();
    let param = Json::single(key, value);
    v.push(Member { key: "device_id".to_owned(), value: Json::unsigned(device) });
    v.push(Member { key: "param".to_owned(), value: param });
    assert(json::fields(v@) =~= seq![
        Field { key: "device_id"@, value: Tree::Number(Number::Unsigned(device)) },
        Field { key: "param"@, value: param@ },
    ]);
    Verdict::Replace(Json::single("NativeParam", Json::Object(v)))
}

/// Whether a value is a given text.
fn is_text(t: &Json, s: &str) -> (r: bool)
    ensures
        r == (t@ == Tree::Text(s@)),
{
    match t {
        Json::Text(x) => same_text(x.as_str(), s),
        _ => false,
    }
}

/// What becomes of a target on a track.
fn legacy_track_target(target: &Json, comp: u64, eq: u64) -> (r: Verdict)
    ensures
        r.model() == track_target(target@, comp, eq),
{
    if target.get("MasterStrip").is_some() {
        return Verdict::Drop;
    }
    let b = match target.get("TrackBuiltin") {
        Some(b) => b,
        None => {
            return Verdict::Keep;
        },
    };
    if is_text(b, "StripCompOn") {
        return make_native_if(true, comp, "On", Json::text("Comp"));
    }
    if is_text(b, "StripEqOn") {
        return make_native_if(true, eq, "On", Json::text("Eq"));
    }
    if let Some(p) = b.get("StripComp") {
        return match p.get("param") {
            Some(p) => make_native_if(is_comp_param(p), comp, "Comp", p.clone()),
            None => Verdict::Drop,
        };
    }
    match b.get("StripEq") {
        Some(p) => make_native_if(is_eq_param(p), eq, "Eq", p.clone()),
        None => Verdict::Keep,
    }
}

fn read_bus_param(s: &str) -> (r: Option<&'static str>)
    ensures
        match r {
            Some(p) => bus_param(s@) == Some(p@),
            None => bus_param(s@) is None,
        },
{
    if same_text(s, "CompThreshold") {
        Some("Threshold")
    } else if same_text(s, "CompRatio") {
        Some("Ratio")
    } else if same_text(s, "CompAttack") {
        Some("Attack")
    } else if same_text(s, "CompRelease") {
        Some("Release")
    } else if same_text(s, "CompMakeup") {
        Some("Makeup")
    } else {
        None
    }
}

/// What becomes of a target on the master.
fn legacy_master_target(target: &Json, bus: u64, tone: u64, bands: &Vec<String>) -> (r: Verdict)
    ensures
        r.model() == master_target(target@, bus, tone, band_names(bands@)),
{
    if names_strip(target) {
        return Verdict::Drop;
    }
    let m = match target.get("MasterStrip") {
        Some(m) => m,
        None => {
            return Verdict::Keep;
        },
    };
    if let Some(band) = m.get("EqGain") {
        return make_native_if(is_tone_band(band, bands), tone, "ToneEq", band.clone());
    }
    let s = match m {
        Json::Text(s) => s.as_str(),
        _ => {
            return Verdict::Drop;
        },
    };
    if same_text(s, "CompOn") {
        make_native_if(true, bus, "On", Json::text("BusComp"))
    } else if same_text(s, "EqOn") {
        make_native_if(true, tone, "On", Json::text("ToneEq"))
    } else if let Some(p) = read_bus_param(s) {
        make_native_if(true, bus, "BusComp", Json::text(p))
    } else if same_text(s, "LimiterOn") {
        Verdict::Replace(Json::single("MasterLimiter", Json::text("On")))
    } else if same_text(s, "LimiterCeiling") {
        Verdict::Replace(Json::single("MasterLimiter", Json::text("Ceiling")))
    } else {
        Verdict::Drop
    }
}

fn judge_target(target: &Json, devices: StripDevices, bands: &Vec<String>) -> (r: Verdict)
    ensures
        r.model() == new_target(target@, devices, band_names(bands@)),
{
    match devices {
        StripDevices::Track { comp, eq } => legacy_track_target(target, comp, eq),
        StripDevices::Master { bus, tone } => legacy_master_target(target, bus, tone, bands),
    }
}

/// Rewrites the targets of lanes or routings and drops those without one.
fn rewrite_items(old_items: Vec<Json>, devices: StripDevices, bands: &Vec<String>) -> (r: Vec<Json>)
    ensures
        json::trees(r@) == new_items(json::trees(old_items@), devices, band_names(bands@)),
{
    let ghost all = json::trees(old_items@);
    let ghost source = old_items@;
    let ghost names = band_names(bands@);
    let mut r: Vec<Json> = Vec::new();
    assert(json::trees(r@) =~= Seq::<Tree>::empty());
    assert(all.take(0) =~= Seq::<Tree>::empty());
    for item in walk: old_items
        invariant
            walk.seq() == source,
            all == json::trees(source),
            names == band_names(bands@),
            json::trees(r@) == new_items(all.take(walk.index()), devices, names),
    {
        let ghost i = walk.index();
        let ghost before = json::trees(r@);
        proof {
            assert(all[i] == json::tree(source[i]));
            assert(all.take(i + 1).drop_last() =~= all.take(i));
            assert(all.take(i + 1).last() == all[i]);
        }
        let verdict = match item.get("target") {
            Some(target) => judge_target(target, devices, bands),
            None => Verdict::Keep,
        };
        match verdict {
            Verdict::Keep => {
                r.push(item);
                assert(json::trees(r@) =~= before + seq![all[i]]);
            },
            Verdict::Replace(t) => {
                let mut item = item;
                match &mut item {
                    Json::Object(v) => put_member(v, "target", t),
                    _ => {},
                }
                let ghost new = item@;
                r.push(item);
                assert(json::trees(r@) =~= before + seq![new]);
            },
            Verdict::Drop => {
                assert(before + Seq::<Tree>::empty() =~= before);
            },
        }
    }
    assert(all.take(source.len() as int) =~= all);
    r
}

/// Rewrites the targets that a member lists.
fn rewrite_targets(v: &mut Vec<Member>, key: &str, devices: StripDevices, bands: &Vec<String>)
    ensures
        json::fields(final(v)@) == with_new_targets(json::fields(old(v)@), key@, devices, band_names(bands@)),
{
    let ghost f = json::fields(v@);
    if let Some(list) = member_mut(v, key) {
        match list {
            Json::List(items) => {
                let mut taken: Vec<Json> = Vec::new();
                std::mem::swap(items, &mut taken);
                *items = rewrite_items(taken, devices, bands);
            },
            _ => {},
        }
    }
    proof {
        if let Some(t) = json::get(f, key@) {
            json::law_with(f, key@, t, key@);
        }
    }
}

// ---------------------------------------------------------------------------
// Signs of the old form
// ---------------------------------------------------------------------------

/// Whether a member lists a target of the old form.
fn find_old(t: Option<&Json>) -> (r: bool)
    ensures
        r == lists_old(
            match t {
                Some(j) => Some(j@),
                None => None,
            },
        ),
{
    if let Some(Json::List(v)) = t {
        let ghost all = json::trees(v@);
        let mut i: usize = 0;
        while i < v.len()
            invariant
                all == json::trees(v@),
                all == device_chains::list_at(
                    match t {
                        Some(j) => Some(j@),
                        None => None,
                    },
                ),
                i <= v@.len(),
                forall|k: int| 0 <= k < i ==> !#[trigger] is_old_item(all[k]),
            decreases v@.len() - i,
        {
            assert(all[i as int] == json::tree(v@[i as int]));
            if let Some(target) = v[i].get("target") {
                if target.get("MasterStrip").is_some() || names_strip(target) {
                    assert(is_old_item(all[i as int]));
                    return true;
                }
            }
            i += 1;
        }
    }
    false
}

/// Whether a song has anything of the old form.
fn has_legacy_strips(song: &Json) -> (r: bool)
    ensures
        r == has_strips(song@),
{
    if song.get("master_strip").is_some() {
        return true;
    }
    if let Some(Json::List(v)) = song.get("tracks") {
        let ghost all = json::trees(v@);
        let mut i: usize = 0;
        while i < v.len()
            invariant
                all == json::trees(v@),
                song@.at("tracks"@) == Some(Tree::List(all)),
                i <= v@.len(),
                forall|k: int| 0 <= k < i ==> !#[trigger] is_old_track(all[k]),
            decreases v@.len() - i,
        {
            assert(all[i as int] == json::tree(v@[i as int]));
            if v[i].get("strip").is_some() || find_old(v[i].get("automation_lanes")) || find_old(
                v[i].get("mod_routings"),
            ) {
                assert(is_old_track(device_chains::list_at(song@.at("tracks"@))[i as int]));
                return true;
            }
            i += 1;
        }
    }
    find_old(song.get("song_lanes")) || find_old(song.get("song_mod_routings"))
}

// ---------------------------------------------------------------------------
// Ids in use
// ---------------------------------------------------------------------------

fn read_node_id(t: &Json) -> (r: u64)
    ensures
        r == node_id(t@),
{
    match t.get("id") {
        Some(n) => match n.as_u64() {
            Some(n) => n,
            None => 0,
        },
        None => 0,
    }
}

fn max_of(a: u64, b: u64) -> (r: u64)
    ensures
        r == clip_content::larger(a, b),
{
    if a < b {
        b
    } else {
        a
    }
}

/// The value of a member, as a smaller document.
fn part<'a>(t: &'a Json, key: &str) -> (r: Option<&'a Json>)
    ensures
        match r {
            Some(j) => t@.at(key@) == Some(j@) && decreases_to!(*t => *j),
            None => t@.at(key@) is None,
        },
{
    match t {
        Json::Object(v) => match member_place(v, key) {
            Some(i) => {
                proof {
                    assert(json::fields(v@)[i as int] == json::field_model(v@[i as int]));
                    assert(decreases_to!(*t => t->Object_0));
                    assert(decreases_to!(t->Object_0 => v@));
                    assert(decreases_to!(v@ => v@[i as int]));
                    assert(decreases_to!(v@[i as int] => v@[i as int].value));
                }
                Some(&v[i].value)
            },
            None => None,
        },
        _ => None,
    }
}

/// The largest id in a device.
fn walk_device(d: &Json) -> (r: u64)
    ensures
        r == device_max(d@),
    decreases *d, 1nat,
{
    if let Some(p) = part(d, "Parallel") {
        let own: u64 = read_node_id(p);
        let mut max: u64 = own;
        if let Some(chains) = part(p, "chains") {
            if let Json::List(v) = chains {
                assert(decreases_to!(*chains => chains->List_0));
                assert(decreases_to!(chains->List_0 => v@));
                let inner: u64 = walk_chains(v);
                max = max_of(own, inner);
            }
        }
        return max;
    }
    match part(d, "Native") {
        Some(n) => read_node_id(n),
        None => read_node_id(d),
    }
}

/// The largest id in chains.
fn walk_chains(v: &Vec<Json>) -> (r: u64)
    ensures
        r == chains_max(json::trees(v@)),
    decreases v@, 0nat,
{
    let ghost all = json::trees(v@);
    let mut max: u64 = 0;
    let mut i: usize = 0;
    assert(all.take(0) =~= Seq::<Tree>::empty());
    while i < v.len()
        invariant
            all == json::trees(v@),
            i <= v@.len(),
            max == chains_max(all.take(i as int)),
        decreases v@.len() - i,
    {
        proof {
            assert(all[i as int] == json::tree(v@[i as int]));
            assert(all.take(i + 1).drop_last() =~= all.take(i as int));
            assert(decreases_to!(v@ => v@[i as int]));
        }
        let c = &v[i];
        let mut inner: u64 = read_node_id(c);
        if let Some(devices) = part(c, "devices") {
            if let Json::List(d) = devices {
                assert(decreases_to!(*devices => devices->List_0));
                assert(decreases_to!(devices->List_0 => d@));
                let deepest: u64 = walk_devices(d);
                inner = max_of(inner, deepest);
            }
        }
        assert(inner == chain_max(all[i as int]));
        max = max_of(max, inner);
        i += 1;
    }
    assert(all.take(i as int) =~= all);
    max
}

/// The largest id in devices.
fn walk_devices(v: &Vec<Json>) -> (r: u64)
    ensures
        r == devices_max(json::trees(v@)),
    decreases v@, 0nat,
{
    let ghost all = json::trees(v@);
    let mut max: u64 = 0;
    let mut i: usize = 0;
    assert(all.take(0) =~= Seq::<Tree>::empty());
    while i < v.len()
        invariant
            all == json::trees(v@),
            i <= v@.len(),
            max == devices_max(all.take(i as int)),
        decreases v@.len() - i,
    {
        proof {
            assert(all[i as int] == json::tree(v@[i as int]));
            assert(all.take(i + 1).drop_last() =~= all.take(i as int));
            assert(decreases_to!(v@ => v@[i as int]));
        }
        let inner: u64 = walk_device(&v[i]);
        max = max_of(max, inner);
        i += 1;
    }
    assert(all.take(i as int) =~= all);
    max
}

/// The largest id in the devices that a member lists.
fn walk_list(t: Option<&Json>) -> (r: u64)
    ensures
        r == devices_max(
            device_chains::list_at(
                match t {
                    Some(j) => Some(j@),
                    None => None,
                },
            ),
        ),
{
    match t {
        Some(Json::List(v)) => walk_devices(v),
        _ => 0,
    }
}

/// The largest id in the devices of a song.
fn max_node_id(v: &Vec<Member>) -> (r: u64)
    ensures
        r == song_node_max(json::fields(v@)),
{
    let mut max: u64 = 0;
    if let Some(Json::List(tracks)) = member(v, "tracks") {
        let ghost all = json::trees(tracks@);
        let mut i: usize = 0;
        assert(all.take(0) =~= Seq::<Tree>::empty());
        while i < tracks.len()
            invariant
                all == json::trees(tracks@),
                i <= tracks@.len(),
                max == tracks_node_max(all.take(i as int)),
            decreases tracks@.len() - i,
        {
            proof {
                assert(all[i as int] == json::tree(tracks@[i as int]));
                assert(all.take(i + 1).drop_last() =~= all.take(i as int));
            }
            let inner: u64 = walk_list(tracks[i].get("devices"));
            max = max_of(max, inner);
            i += 1;
        }
        assert(all.take(i as int) =~= all);
    }
    let master: u64 = walk_list(member(v, "master_fx_chain"));
    max_of(max, master)
}

/// The first free device id.
fn find_first_device_id(v: &Vec<Member>) -> (r: u64)
    ensures
        r == first_device_id(json::fields(v@)),
{
    let counted: u64 = match member(v, "ids") {
        Some(ids) => match ids.get("next_device_id") {
            Some(t) => match t.as_u64() {
                Some(n) => n,
                None => 0,
            },
            None => 0,
        },
        None => 0,
    };
    let max: u64 = max_node_id(v);
    max_of(max_of(counted, max.saturating_add(1)), 1)
}

// ---------------------------------------------------------------------------
// Devices
// ---------------------------------------------------------------------------

/// The settings of a section and whether it was off.
fn take_section_on(section: Option<&Json>) -> (r: (Json, bool))
    ensures
        ({
            let s = match section {
                Some(j) => Some(j@),
                None => None,
            };
            r.0@ == section_params(s) && r.1 == section_bypassed(s)
        }),
{
    let mut body: Vec<Member> = match section {
        Some(Json::Object(v)) => json::copy_members(v),
        _ => Vec::new(),
    };
    let ghost f = json::fields(body@);
    assert(section !is Some || section->0@ !is Object ==> f =~= Seq::<Field>::empty());
    let on = match take_member(&mut body, "on") {
        Some(Json::Bool(b)) => b,
        _ => false,
    };
    let _ = take_member(&mut body, "sc_listen");
    (Json::Object(body), !on)
}

/// Whether a device is the built-in one of a kind.
fn is_builtin_of(d: &Json, kind: &str) -> (r: bool)
    ensures
        r == is_builtin(d@, kind@),
{
    let n = match d.get("Native") {
        Some(n) => n,
        None => {
            return false;
        },
    };
    let builtin = match n.get("builtin") {
        Some(Json::Bool(b)) => *b,
        _ => false,
    };
    let of_kind = match n.get("params") {
        Some(Json::Object(p)) => has_member(p, kind),
        _ => false,
    };
    builtin && of_kind
}

fn find_builtin(v: &Vec<Json>, kind: &str) -> (r: Option<usize>)
    ensures
        match r {
            Some(i) => i < v@.len() && builtin_place(json::trees(v@), kind@, 0) == Some(i as int) && is_builtin(
                json::trees(v@)[i as int],
                kind@,
            ),
            None => builtin_place(json::trees(v@), kind@, 0) is None,
        },
{
    let ghost all = json::trees(v@);
    let mut i: usize = 0;
    while i < v.len()
        invariant
            all == json::trees(v@),
            i <= v@.len(),
            builtin_place(all, kind@, 0) == builtin_place(all, kind@, i as int),
        decreases v@.len() - i,
    {
        assert(all[i as int] == json::tree(v@[i as int]));
        if is_builtin_of(&v[i], kind) {
            return Some(i);
        }
        i += 1;
    }
    None
}

/// The next free id.
fn take_id(next: &mut u64) -> (r: u64)
    ensures
        r == *old(next),
        *final(next) == one_more(*old(next)),
{
    let id: u64 = *next;
    *next = id.saturating_add(1);
    id
}

fn make_builtin(id: u64, kind: &str, params: Json, bypassed: bool) -> (r: Json)
    ensures
        r@ == builtin_device(id, kind@, params@, bypassed),
{
    let settings = Json::single(kind, params);
    let mut v: Vec<Member> = Vec::new();
    v.push(Member { key: "id".to_owned(), value: Json::unsigned(id) });
    v.push(Member { key: "builtin".to_owned(), value: Json::Bool(true) });
    v.push(Member { key: "ordinal".to_owned(), value: Json::unsigned(1) });
    v.push(Member { key: "bypassed".to_owned(), value: Json::Bool(bypassed) });
    v.push(Member { key: "params".to_owned(), value: settings });
    assert(json::fields(v@) =~= seq![
        Field { key: "id"@, value: Tree::Number(Number::Unsigned(id)) },
        Field { key: "builtin"@, value: Tree::Bool(true) },
        Field { key: "ordinal"@, value: Tree::Number(Number::Unsigned(1)) },
        Field { key: "bypassed"@, value: Tree::Bool(bypassed) },
        Field { key: "params"@, value: single(kind@, params@) },
    ]);
    Json::single("Native", Json::Object(v))
}

/// Sets the id, the settings and the bypass of a native device, and returns its
/// id.
fn set_up_native(d: &mut Json, kind: &str, params: Json, bypassed: bool, next: &mut u64) -> (r: u64)
    requires
        is_builtin(old(d)@, kind@),
    ensures
        ({
            let n = old(d)@.at("Native"@)->0;
            let fresh = node_id(n) == 0;
            let id = if fresh {
                *old(next)
            } else {
                node_id(n)
            };
            &&& r == id
            &&& *final(next) == if fresh {
                one_more(*old(next))
            } else {
                *old(next)
            }
            &&& final(d)@ == Tree::Object(
                json::with(
                    old(d)@->Object_0,
                    "Native"@,
                    Tree::Object(native_with(n->Object_0, id, kind@, params@, bypassed)),
                ),
            )
        }),
{
    let mut id: u64 = 0;
    match d {
        Json::Object(m) => {
            if let Some(native) = member_mut(m, "Native") {
                let found: u64 = read_node_id(native);
                id = if found != 0 {
                    found
                } else {
                    take_id(next)
                };
                match native {
                    Json::Object(n) => {
                        put_member(n, "id", Json::unsigned(id));
                        put_member(n, "params", Json::single(kind, params));
                        put_member(n, "bypassed", Json::Bool(bypassed));
                    },
                    _ => {},
                }
            }
        },
        _ => {},
    }
    id
}

/// Sets up the built-in device of a kind, see [`installed`], and returns its id.
fn install_builtin(
    devices: &mut Vec<Json>,
    kind: &str,
    params: Json,
    bypassed: bool,
    at: usize,
    next: &mut u64,
) -> (r: u64)
    ensures
        ({
            let w = installed(json::trees(old(devices)@), kind@, params@, bypassed, at as int, *old(next));
            &&& json::trees(final(devices)@) == w.devices
            &&& r == w.id
            &&& *final(next) == w.next
        }),
{
    let ghost all = json::trees(devices@);
    match find_builtin(devices, kind) {
        Some(i) => {
            assert(all[i as int] == json::tree(devices@[i as int]));
            let id: u64 = set_up_native(&mut devices[i], kind, params, bypassed, next);
            assert(json::trees(devices@) =~= all.update(i as int, json::tree(devices@[i as int])));
            id
        },
        None => {
            let id: u64 = take_id(next);
            let d = make_builtin(id, kind, params, bypassed);
            let place: usize = if at < devices.len() {
                at
            } else {
                devices.len()
            };
            devices.insert(place, d);
            assert(json::trees(devices@) =~= all.insert(place as int, d@));
            id
        },
    }
}

/// Puts an empty list at `key`, if nothing is there.
fn ensure_list(v: &mut Vec<Member>, key: &str)
    ensures
        json::fields(final(v)@) == with_list(json::fields(old(v)@), key@),
{
    if !has_member(v, key) {
        let empty: Vec<Json> = Vec::new();
        assert(json::trees(empty@) =~= Seq::<Tree>::empty());
        put_member(v, key, Json::List(empty));
    }
}

/// The section of a strip.
fn read_section<'a>(strip: &'a Option<Json>, key: &str) -> (r: Option<&'a Json>)
    ensures
        (match r {
            Some(j) => Some(j@),
            None => None,
        }) == section(
            match strip {
                Some(j) => Some(j@),
                None => None,
            },
            key@,
        ),
{
    match strip {
        Some(s) => s.get(key),
        None => None,
    }
}

fn migrate_track_members(t: &mut Vec<Member>, next_id: &mut u64)
    ensures
        (json::fields(final(t)@), *final(next_id)) == native_track_members(json::fields(old(t)@), *old(next_id)),
{
    let strip = take_member(t, "strip");
    ensure_list(t, "devices");
    let ghost g = json::fields(t@);
    let mut ids: Option<(u64, u64)> = None;
    if let Some(list) = member_mut(t, "devices") {
        if let Json::List(devices) = list {
            let (comp, comp_bypassed) = take_section_on(read_section(&strip, "comp"));
            let (eq, eq_bypassed) = take_section_on(read_section(&strip, "eq"));
            assert(json::trees(devices@).len() == devices@.len());
            let end: usize = devices.len();
            let comp_id: u64 = install_builtin(devices, "Comp", comp, comp_bypassed, end, next_id);
            assert(json::trees(devices@).len() == devices@.len());
            let end: usize = devices.len();
            let eq_id: u64 = install_builtin(devices, "Eq", eq, eq_bypassed, end, next_id);
            ids = Some((comp_id, eq_id));
        }
    }
    match ids {
        Some((comp, eq)) => {
            let devices = StripDevices::Track { comp, eq };
            let none: Vec<String> = Vec::new();
            assert(band_names(none@) =~= Seq::<Seq<char>>::empty());
            rewrite_targets(t, "automation_lanes", devices, &none);
            rewrite_targets(t, "mod_routings", devices, &none);
        },
        None => {
            proof {
                if let Some(x) = json::get(g, "devices"@) {
                    json::law_with(g, "devices"@, x, "devices"@);
                }
            }
        },
    }
}

/// Turns the strip of a track into devices and rewrites the targets of its lanes
/// and routings. `next_id` is the next free device id. Works on a track alone,
/// as the clipboard holds it.
pub fn migrate_strips_in_track_value(track: &mut Json, next_id: &mut u64)
    ensures
        (final(track)@, *final(next_id)) == native_track(old(track)@, *old(next_id)),
{
    match track {
        Json::Object(t) => migrate_track_members(t, next_id),
        _ => {},
    }
}

fn migrate_tracks(v: &mut Vec<Json>, next: &mut u64)
    ensures
        (json::trees(final(v)@), *final(next)) == native_tracks(json::trees(old(v)@), *old(next)),
{
    let ghost start = json::trees(v@);
    let ghost first = *next;
    let mut i: usize = 0;
    assert(start.take(0) =~= Seq::<Tree>::empty());
    assert(json::trees(v@).take(0) =~= Seq::<Tree>::empty());
    while i < v.len()
        invariant
            v@.len() == start.len(),
            i <= v@.len(),
            json::trees(v@).skip(i as int) == start.skip(i as int),
            (json::trees(v@).take(i as int), *next) == native_tracks(start.take(i as int), first),
        decreases v@.len() - i,
    {
        let ghost before = json::trees(v@);
        proof {
            assert(before[i as int] == before.skip(i as int)[0]);
            assert(before[i as int] == start[i as int]);
            assert(before[i as int] == json::tree(v@[i as int]));
            assert(start.take(i + 1).drop_last() =~= start.take(i as int));
        }
        migrate_strips_in_track_value(&mut v[i], next);
        proof {
            let after = json::trees(v@);
            assert(after =~= before.update(i as int, json::tree(v@[i as int])));
            assert(after.take(i + 1) =~= before.take(i as int).push(json::tree(v@[i as int])));
            assert(after.skip(i + 1) =~= before.skip(i as int).drop_first());
            assert(start.skip(i + 1) =~= start.skip(i as int).drop_first());
        }
        i += 1;
    }
    proof {
        assert(start.take(i as int) =~= start);
        assert(json::trees(v@).take(i as int) =~= json::trees(v@));
    }
}

fn migrate_tracks_at(v: &mut Vec<Member>, next: &mut u64)
    ensures
        (json::fields(final(v)@), *final(next)) == with_native_tracks(json::fields(old(v)@), *old(next)),
{
    let ghost f = json::fields(v@);
    if let Some(tracks) = member_mut(v, "tracks") {
        match tracks {
            Json::List(l) => migrate_tracks(l, next),
            _ => {},
        }
    }
    proof {
        if let Some(t) = json::get(f, "tracks"@) {
            json::law_with(f, "tracks"@, t, "tracks"@);
        }
    }
}

/// Turns the master strip into the limiter and two devices at the front of the
/// master chain.
fn migrate_master_strip(song: &mut Vec<Member>, next: &mut u64, bands: &Vec<String>)
    ensures
        (json::fields(final(song)@), *final(next)) == with_native_master(
            json::fields(old(song)@),
            *old(next),
            band_names(bands@),
        ),
{
    let strip = take_member(song, "master_strip");
    if let Some(limiter) = read_section(&strip, "limiter") {
        put_member(song, "master_limiter", limiter.clone());
    }
    ensure_list(song, "master_fx_chain");
    let ghost g = json::fields(song@);
    let mut ids: Option<(u64, u64)> = None;
    if let Some(list) = member_mut(song, "master_fx_chain") {
        if let Json::List(chain) = list {
            let (comp, comp_bypassed) = take_section_on(read_section(&strip, "comp"));
            let (eq, eq_bypassed) = take_section_on(read_section(&strip, "eq"));
            let bus_id: u64 = install_builtin(chain, "BusComp", comp, comp_bypassed, 0, next);
            let tone_id: u64 = install_builtin(chain, "ToneEq", eq, eq_bypassed, 1, next);
            ids = Some((bus_id, tone_id));
        }
    }
    match ids {
        Some((bus, tone)) => {
            let devices = StripDevices::Master { bus, tone };
            rewrite_targets(song, "song_lanes", devices, bands);
            rewrite_targets(song, "song_mod_routings", devices, bands);
        },
        None => {
            proof {
                if let Some(x) = json::get(g, "master_fx_chain"@) {
                    json::law_with(g, "master_fx_chain"@, x, "master_fx_chain"@);
                }
            }
        },
    }
}

/// Writes the next free device id into the ids of a song.
fn put_device_count(song: &mut Vec<Member>, next: u64)
    ensures
        json::fields(final(song)@) == with_device_count(json::fields(old(song)@), next),
{
    let ghost f = json::fields(song@);
    if !has_member(song, "ids") {
        put_member(song, "ids", Json::single("next_device_id", Json::unsigned(next)));
        return;
    }
    if let Some(ids) = member_mut(song, "ids") {
        match ids {
            Json::Object(m) => put_member(m, "next_device_id", Json::unsigned(next)),
            _ => {},
        }
    }
    proof {
        if let Some(t) = json::get(f, "ids"@) {
            json::law_with(f, "ids"@, t, "ids"@);
        }
    }
}

/// Turns the strips of a song into native devices. `tone_bands` names the bands
/// of the tone equaliser. A song without strips stays as it is.
pub fn migrate_strips_to_native(song: &mut Json, tone_bands: &Vec<String>)
    ensures
        final(song)@ == native_song(old(song)@, band_names(tone_bands@)),
{
    if !has_legacy_strips(song) {
        return;
    }
    match song {
        Json::Object(v) => {
            let mut next: u64 = find_first_device_id(v);
            migrate_tracks_at(v, &mut next);
            migrate_master_strip(v, &mut next, tone_bands);
            put_device_count(v, next);
        },
        _ => {},
    }
}

// ---------------------------------------------------------------------------
// Laws
// ---------------------------------------------------------------------------

/// Whether a target of a strip is written as a switch or with its parameter.
pub open spec fn is_readable_item(item: Tree) -> bool {
    item.at("target"@) matches Some(t) && is_strip_builtin(t) ==> {
        let b = item.at("target"@)->0.at("TrackBuiltin"@)->0;
        b == Tree::Text("StripCompOn"@) || b == Tree::Text("StripEqOn"@) || b.at("StripComp"@) is Some || b.at(
            "StripEq"@,
        ) is Some
    }
}

/// Whether every target that a member lists is readable.
pub open spec fn lists_readable(t: Option<Tree>) -> bool {
    forall|i: int|
        0 <= i < device_chains::list_at(t).len() ==> #[trigger] is_readable_item(device_chains::list_at(t)[i])
}

/// Whether a member is a list, or not there.
pub open spec fn is_list_if_any(t: Option<Tree>) -> bool {
    t matches Some(v) ==> v is List
}

/// Whether the chain of a track is a list and its targets are readable.
pub open spec fn is_readable_track(track: Tree) -> bool {
    is_list_if_any(track.at("devices"@)) && lists_readable(track.at("automation_lanes"@)) && lists_readable(
        track.at("mod_routings"@),
    )
}

/// Whether the chains of a song are lists and its targets are readable.
pub open spec fn is_readable_song(song: Tree) -> bool {
    &&& is_list_if_any(song.at("master_fx_chain"@))
    &&& forall|i: int|
        0 <= i < device_chains::list_at(song.at("tracks"@)).len() ==> #[trigger] is_readable_track(
            device_chains::list_at(song.at("tracks"@))[i],
        )
}

/// Nothing of the old form is left, and so turning strips into devices twice is
/// doing it once.
pub proof fn law_strips_are_gone(song: Tree, bands: Seq<Seq<char>>)
    requires
        is_readable_song(song),
    ensures
        !has_strips(native_song(song, bands)),
        native_song(native_song(song, bands), bands) == native_song(song, bands),
{
    if let Tree::Object(f) = song {
        if has_strips(song) {
            lemma_song_keys();
            let tracks = with_native_tracks(f, first_device_id(f));
            let f1 = tracks.0;
            if let Some(Tree::List(v)) = json::get(f, "tracks"@) {
                assert forall|i: int| 0 <= i < v.len() implies #[trigger] is_readable_track(v[i]) by {
                    assert(is_readable_track(device_chains::list_at(song.at("tracks"@))[i]));
                }
                lemma_tracks_are_new(v, first_device_id(f));
                let w = Tree::List(native_tracks(v, first_device_id(f)).0);
                json::law_with(f, "tracks"@, w, "master_fx_chain"@);
            }
            lemma_master_is_new(f1, tracks.1, bands);
            let master = with_native_master(f1, tracks.1, bands);
            let f2 = master.0;
            let f3 = with_device_count(f2, master.1);
            lemma_device_count(f2, master.1, "master_strip"@);
            lemma_device_count(f2, master.1, "tracks"@);
            lemma_device_count(f2, master.1, "song_lanes"@);
            lemma_device_count(f2, master.1, "song_mod_routings"@);
            let r = Tree::Object(f3);
            assert(native_song(song, bands) == r);
            assert(r.at("tracks"@) == json::get(f1, "tracks"@));
            assert(!lists_old(r.at("song_lanes"@)));
            assert(!lists_old(r.at("song_mod_routings"@)));
            assert forall|i: int| 0 <= i < device_chains::list_at(r.at("tracks"@)).len() implies !#[trigger] is_old_track(
                device_chains::list_at(r.at("tracks"@))[i],
            ) by {
                assert(json::get(f, "tracks"@) matches Some(Tree::List(_)));
            }
        }
    }
}

pub(crate) proof fn lemma_song_keys()
    ensures
        "tracks"@.len() == 6,
        "master_strip"@.len() == 12,
        "master_limiter"@.len() == 14,
        "master_fx_chain"@.len() == 15,
        "song_lanes"@.len() == 10,
        "song_mod_routings"@.len() == 17,
        "ids"@.len() == 3,
        "strip"@.len() == 5,
        "devices"@.len() == 7,
        "automation_lanes"@.len() == 16,
        "mod_routings"@.len() == 12,
{
    reveal_strlit("tracks");
    reveal_strlit("master_strip");
    reveal_strlit("master_limiter");
    reveal_strlit("master_fx_chain");
    reveal_strlit("song_lanes");
    reveal_strlit("song_mod_routings");
    reveal_strlit("ids");
    reveal_strlit("strip");
    reveal_strlit("devices");
    reveal_strlit("automation_lanes");
    reveal_strlit("mod_routings");
}

proof fn lemma_single_is_new(key: Seq<char>, value: Tree)
    requires
        key == "NativeParam"@ || key == "MasterLimiter"@,
    ensures
        single(key, value).at("MasterStrip"@) is None,
        !is_strip_builtin(single(key, value)),
{
    reveal_strlit("NativeParam");
    reveal_strlit("MasterLimiter");
    reveal_strlit("MasterStrip");
    reveal_strlit("TrackBuiltin");
    assert("NativeParam"@.len() == 11 && "MasterLimiter"@.len() == 13);
    assert("MasterStrip"@.len() == 11 && "TrackBuiltin"@.len() == 12);
    assert("NativeParam"@[0] != "MasterStrip"@[0]);
    let f = seq![Field { key, value }];
    json::lemma_key_place(f, "MasterStrip"@, 0);
    json::lemma_key_place(f, "TrackBuiltin"@, 0);
}

proof fn lemma_item_is_new(item: Tree, devices: StripDevices, bands: Seq<Seq<char>>)
    requires
        devices is Track ==> is_readable_item(item),
    ensures
        new_item(item, devices, bands).len() <= 1,
        forall|i: int|
            0 <= i < new_item(item, devices, bands).len() ==> !#[trigger] is_old_item(new_item(item, devices, bands)[i]),
{
    if let Some(target) = item.at("target"@) {
        if let Rewrite::Replace(t) = new_target(target, devices, bands) {
            json::law_with(item->Object_0, "target"@, t, "target"@);
            let f = t->Object_0;
            assert(f.len() == 1);
            assert(t == single(f[0].key, f[0].value));
            lemma_single_is_new(f[0].key, f[0].value);
        }
    }
}

proof fn lemma_items_are_new(v: Seq<Tree>, devices: StripDevices, bands: Seq<Seq<char>>)
    requires
        devices is Track ==> forall|i: int| 0 <= i < v.len() ==> #[trigger] is_readable_item(v[i]),
    ensures
        forall|i: int|
            0 <= i < new_items(v, devices, bands).len() ==> !#[trigger] is_old_item(new_items(v, devices, bands)[i]),
    decreases v.len(),
{
    if v.len() > 0 {
        let front = v.drop_last();
        if devices is Track {
            assert forall|i: int| 0 <= i < front.len() implies #[trigger] is_readable_item(front[i]) by {
                assert(is_readable_item(v[i]));
            }
            assert(is_readable_item(v[v.len() - 1]));
        }
        lemma_items_are_new(front, devices, bands);
        lemma_item_is_new(v.last(), devices, bands);
        let a = new_items(front, devices, bands);
        let b = new_item(v.last(), devices, bands);
        assert forall|i: int| 0 <= i < (a + b).len() implies !#[trigger] is_old_item((a + b)[i]) by {
            if i < a.len() {
                assert((a + b)[i] == a[i]);
                assert(!is_old_item(a[i]));
            } else {
                assert((a + b)[i] == b[i - a.len()]);
                assert(!is_old_item(b[i - a.len()]));
            }
        }
    }
}

proof fn lemma_targets_are_new(
    f: Seq<Field>,
    key: Seq<char>,
    devices: StripDevices,
    bands: Seq<Seq<char>>,
    other: Seq<char>,
)
    requires
        devices is Track ==> lists_readable(json::get(f, key)),
    ensures
        !lists_old(json::get(with_new_targets(f, key, devices, bands), key)),
        other != key ==> json::get(with_new_targets(f, key, devices, bands), other) == json::get(f, other),
{
    if let Some(Tree::List(v)) = json::get(f, key) {
        if devices is Track {
            assert forall|i: int| 0 <= i < v.len() implies #[trigger] is_readable_item(v[i]) by {
                assert(is_readable_item(device_chains::list_at(json::get(f, key))[i]));
            }
        }
        lemma_items_are_new(v, devices, bands);
        let w = new_items(v, devices, bands);
        json::law_with(f, key, Tree::List(w), other);
        let r = json::get(with_new_targets(f, key, devices, bands), key);
        assert forall|i: int| 0 <= i < device_chains::list_at(r).len() implies !#[trigger] is_old_item(
            device_chains::list_at(r)[i],
        ) by {
            assert(!is_old_item(w[i]));
        }
    }
}

proof fn lemma_with_list(f: Seq<Field>, key: Seq<char>, other: Seq<char>)
    requires
        is_list_if_any(json::get(f, key)),
    ensures
        json::get(with_list(f, key), key) matches Some(Tree::List(_)),
        other != key ==> json::get(with_list(f, key), other) == json::get(f, other),
{
    json::law_with(f, key, Tree::List(Seq::empty()), other);
}

proof fn lemma_track_is_new(track: Tree, next: u64)
    requires
        is_readable_track(track),
    ensures
        !is_old_track(native_track(track, next).0),
{
    if let Tree::Object(f) = track {
        lemma_song_keys();
        let bare = json::without(f, "strip"@);
        json::law_without(f, "strip"@, "devices"@);
        json::law_without(f, "strip"@, "automation_lanes"@);
        json::law_without(f, "strip"@, "mod_routings"@);
        let g = with_list(bare, "devices"@);
        lemma_with_list(bare, "devices"@, "strip"@);
        lemma_with_list(bare, "devices"@, "automation_lanes"@);
        lemma_with_list(bare, "devices"@, "mod_routings"@);
        let strip = json::get(f, "strip"@);
        let v = json::get(g, "devices"@)->0->List_0;
        let comp = section(strip, "comp"@);
        let eq = section(strip, "eq"@);
        let a = installed(v, "Comp"@, section_params(comp), section_bypassed(comp), v.len() as int, next);
        let b = installed(
            a.devices,
            "Eq"@,
            section_params(eq),
            section_bypassed(eq),
            a.devices.len() as int,
            a.next,
        );
        let devices = StripDevices::Track { comp: a.id, eq: b.id };
        let none = Seq::<Seq<char>>::empty();
        let h = json::with(g, "devices"@, Tree::List(b.devices));
        json::law_with(g, "devices"@, Tree::List(b.devices), "strip"@);
        json::law_with(g, "devices"@, Tree::List(b.devices), "automation_lanes"@);
        json::law_with(g, "devices"@, Tree::List(b.devices), "mod_routings"@);
        let k = with_new_targets(h, "automation_lanes"@, devices, none);
        lemma_targets_are_new(h, "automation_lanes"@, devices, none, "strip"@);
        lemma_targets_are_new(h, "automation_lanes"@, devices, none, "mod_routings"@);
        lemma_targets_are_new(k, "mod_routings"@, devices, none, "strip"@);
        lemma_targets_are_new(k, "mod_routings"@, devices, none, "automation_lanes"@);
    }
}

proof fn lemma_tracks_are_new(v: Seq<Tree>, next: u64)
    requires
        forall|i: int| 0 <= i < v.len() ==> #[trigger] is_readable_track(v[i]),
    ensures
        native_tracks(v, next).0.len() == v.len(),
        forall|i: int|
            0 <= i < native_tracks(v, next).0.len() ==> !#[trigger] is_old_track(native_tracks(v, next).0[i]),
    decreases v.len(),
{
    if v.len() > 0 {
        let front = v.drop_last();
        assert forall|i: int| 0 <= i < front.len() implies #[trigger] is_readable_track(front[i]) by {
            assert(is_readable_track(v[i]));
        }
        lemma_tracks_are_new(front, next);
        assert(is_readable_track(v[v.len() - 1]));
        let before = native_tracks(front, next);
        lemma_track_is_new(v.last(), before.1);
        let r = native_tracks(v, next).0;
        assert forall|i: int| 0 <= i < r.len() implies !#[trigger] is_old_track(r[i]) by {
            if i < before.0.len() {
                assert(r[i] == before.0[i]);
                assert(!is_old_track(before.0[i]));
            }
        }
    }
}

proof fn lemma_master_is_new(f: Seq<Field>, next: u64, bands: Seq<Seq<char>>)
    requires
        is_list_if_any(json::get(f, "master_fx_chain"@)),
    ensures
        ({
            let r = with_native_master(f, next, bands).0;
            &&& json::get(r, "master_strip"@) is None
            &&& json::get(r, "tracks"@) == json::get(f, "tracks"@)
            &&& !lists_old(json::get(r, "song_lanes"@))
            &&& !lists_old(json::get(r, "song_mod_routings"@))
        }),
{
    lemma_song_keys();
    let strip = json::get(f, "master_strip"@);
    let bare = json::without(f, "master_strip"@);
    json::law_without(f, "master_strip"@, "tracks"@);
    json::law_without(f, "master_strip"@, "master_fx_chain"@);
    let limited = match section(strip, "limiter"@) {
        Some(l) => json::with(bare, "master_limiter"@, l),
        None => bare,
    };
    if let Some(l) = section(strip, "limiter"@) {
        json::law_with(bare, "master_limiter"@, l, "tracks"@);
        json::law_with(bare, "master_limiter"@, l, "master_strip"@);
        json::law_with(bare, "master_limiter"@, l, "master_fx_chain"@);
    }
    let g = with_list(limited, "master_fx_chain"@);
    lemma_with_list(limited, "master_fx_chain"@, "tracks"@);
    lemma_with_list(limited, "master_fx_chain"@, "master_strip"@);
    let v = json::get(g, "master_fx_chain"@)->0->List_0;
    let comp = section(strip, "comp"@);
    let eq = section(strip, "eq"@);
    let a = installed(v, "BusComp"@, section_params(comp), section_bypassed(comp), 0, next);
    let b = installed(a.devices, "ToneEq"@, section_params(eq), section_bypassed(eq), 1, a.next);
    let devices = StripDevices::Master { bus: a.id, tone: b.id };
    let h = json::with(g, "master_fx_chain"@, Tree::List(b.devices));
    json::law_with(g, "master_fx_chain"@, Tree::List(b.devices), "tracks"@);
    json::law_with(g, "master_fx_chain"@, Tree::List(b.devices), "master_strip"@);
    let k = with_new_targets(h, "song_lanes"@, devices, bands);
    lemma_targets_are_new(h, "song_lanes"@, devices, bands, "tracks"@);
    lemma_targets_are_new(h, "song_lanes"@, devices, bands, "master_strip"@);
    lemma_targets_are_new(k, "song_mod_routings"@, devices, bands, "tracks"@);
    lemma_targets_are_new(k, "song_mod_routings"@, devices, bands, "master_strip"@);
    lemma_targets_are_new(k, "song_mod_routings"@, devices, bands, "song_lanes"@);
}

pub(crate) proof fn lemma_device_count(f: Seq<Field>, next: u64, other: Seq<char>)
    requires
        other != "ids"@,
    ensures
        json::get(with_device_count(f, next), other) == json::get(f, other),
{
    let number = Tree::Number(Number::Unsigned(next));
    match json::get(f, "ids"@) {
        None => json::law_with(f, "ids"@, single("next_device_id"@, number), other),
        Some(Tree::Object(m)) => json::law_with(
            f,
            "ids"@,
            Tree::Object(json::with(m, "next_device_id"@, number)),
            other,
        ),
        Some(_) => {},
    }
}

} // verus!
