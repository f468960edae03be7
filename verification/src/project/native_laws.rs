//! What holds of the devices that strips become.

use super::device_chains;
use super::native_migration;
use super::native_migration::StripDevices;
use crate::json;
use crate::json::{Field, Number, Tree};
use crate::model::time_laws;
use vstd::prelude::*;
use vstd::string::*;

verus! {

// ---------------------------------------------------------------------------
// Devices
// ---------------------------------------------------------------------------

/// Whether a device is built in and has settings of a kind.
pub open spec fn is_of_kind(d: Tree, kind: Seq<char>) -> bool {
    &&& d.at("Native"@) is Some
    &&& d.at("Native"@)->0.at("builtin"@) == Some(Tree::Bool(true))
    &&& d.at("Native"@)->0.at("params"@) is Some
    &&& d.at("Native"@)->0.at("params"@)->0.at(kind) is Some
}

/// Whether the first built-in device of a kind stands at a place.
pub open spec fn is_first_of_kind(v: Seq<Tree>, kind: Seq<char>, c: int) -> bool {
    &&& 0 <= c < v.len()
    &&& is_of_kind(v[c], kind)
    &&& forall|k: int| 0 <= k < c ==> !#[trigger] is_of_kind(v[k], kind)
}

/// Whether devices have a built-in one of a kind.
pub open spec fn has_kind(v: Seq<Tree>, kind: Seq<char>) -> bool {
    exists|k: int| 0 <= k < v.len() && #[trigger] is_of_kind(v[k], kind)
}

/// Whether a section of a strip is switched on.
pub open spec fn is_on(section: Option<Tree>) -> bool {
    section is Some && section->0.at("on"@) == Some(Tree::Bool(true))
}

/// Whether settings are those of a section: every member but its switch and the state of
/// listening in.
pub open spec fn are_settings_of(settings: Tree, section: Option<Tree>) -> bool {
    &&& settings is Object
    &&& forall|key: Seq<char>| #[trigger]
        settings.at(key) == if key == "on"@ || key == "sc_listen"@ || section is None {
            None
        } else {
            section->0.at(key)
        }
}

/// Whether a device does what a section of a strip did: it runs if and only if the
/// section was on, with the settings of the section.
pub open spec fn does_what_it_did(d: Tree, kind: Seq<char>, section: Option<Tree>, id: u64) -> bool {
    let native = d.at("Native"@)->0;
    &&& is_of_kind(d, kind)
    &&& native.at("bypassed"@) == Some(Tree::Bool(!is_on(section)))
    &&& are_settings_of(native.at("params"@)->0.at(kind)->0, section)
    &&& native.at("id"@) == Some(Tree::Number(Number::Unsigned(id)))
}

/// Whether a device has no settings but those of a kind.
pub open spec fn has_only_kind(d: Tree, kind: Seq<char>) -> bool {
    forall|other: Seq<char>| other != kind ==> !#[trigger] is_of_kind(d, other)
}

/// Whether a device is another one set up anew: its id, its settings and whether it runs
/// may differ, but it keeps an id that it has.
pub open spec fn is_set_up_anew(d: Tree, was: Tree) -> bool {
    let now = d.at("Native"@)->0;
    let old = was.at("Native"@)->0;
    &&& forall|key: Seq<char>| key != "Native"@ ==> #[trigger] d.at(key) == was.at(key)
    &&& forall|key: Seq<char>|
        key != "id"@ && key != "params"@ && key != "bypassed"@ ==> #[trigger] now.at(key) == old.at(key)
    &&& match old.at("id"@) {
        Some(Tree::Number(Number::Unsigned(n))) => n != 0 ==> now.at("id"@) == old.at("id"@),
        _ => true,
    }
}

proof fn lemma_device_keys()
    ensures
        "id"@.len() == 2,
        "builtin"@.len() == 7,
        "ordinal"@.len() == 7,
        "builtin"@ != "ordinal"@,
        "bypassed"@.len() == 8,
        "params"@.len() == 6,
        "Comp"@.len() == 4,
        "Eq"@.len() == 2,
        "BusComp"@.len() == 7,
        "ToneEq"@.len() == 6,
        "on"@.len() == 2,
        "sc_listen"@.len() == 9,
        "Native"@.len() == 6,
{
    reveal_strlit("id");
    reveal_strlit("builtin");
    reveal_strlit("ordinal");
    reveal_strlit("bypassed");
    reveal_strlit("params");
    reveal_strlit("Comp");
    reveal_strlit("Eq");
    reveal_strlit("BusComp");
    reveal_strlit("ToneEq");
    reveal_strlit("on");
    reveal_strlit("sc_listen");
    reveal_strlit("Native");
    assert("builtin"@[0] != "ordinal"@[0]);
}

proof fn lemma_same_kind(d: Tree, kind: Seq<char>)
    ensures
        native_migration::is_builtin(d, kind) == is_of_kind(d, kind),
{
}

proof fn lemma_builtin_place(v: Seq<Tree>, kind: Seq<char>, from: int)
    requires
        0 <= from,
    ensures
        match native_migration::builtin_place(v, kind, from) {
            Some(i) => from <= i < v.len() && is_of_kind(v[i], kind) && forall|k: int|
                from <= k < i ==> !#[trigger] is_of_kind(v[k], kind),
            None => forall|k: int| from <= k < v.len() ==> !#[trigger] is_of_kind(v[k], kind),
        },
    decreases v.len() - from,
{
    if from < v.len() {
        lemma_same_kind(v[from], kind);
        if !is_of_kind(v[from], kind) {
            lemma_builtin_place(v, kind, from + 1);
        }
    }
}

proof fn lemma_single(key: Seq<char>, value: Tree, other: Seq<char>)
    ensures
        native_migration::single(key, value).at(other) == if other == key {
            Some(value)
        } else {
            None::<Tree>
        },
{
    let f = seq![Field { key, value }];
    json::lemma_key_place(f, other, 0);
    assert(f[0].key == key);
}

proof fn lemma_settings(section: Option<Tree>)
    ensures
        are_settings_of(native_migration::section_params(section), section),
{
    let settings = native_migration::section_params(section);
    let body = match section {
        Some(Tree::Object(f)) => f,
        _ => Seq::empty(),
    };
    assert forall|key: Seq<char>| #[trigger]
        settings.at(key) == if key == "on"@ || key == "sc_listen"@ || section is None {
            None
        } else {
            section->0.at(key)
        } by {
        json::law_without(body, "on"@, key);
        json::law_without(json::without(body, "on"@), "sc_listen"@, key);
        json::lemma_key_place(body, key, 0);
    }
}

/// Putting in a device that does what a section did.
#[verifier::rlimit(40)]
proof fn lemma_installed(v: Seq<Tree>, kind: Seq<char>, section: Option<Tree>, at: int, next: u64) -> (c: int)
    requires
        0 <= at,
    ensures
        ({
            let r = native_migration::installed(
                v,
                kind,
                native_migration::section_params(section),
                native_migration::section_bypassed(section),
                at,
                next,
            );
            &&& is_first_of_kind(r.devices, kind, c)
            &&& does_what_it_did(r.devices[c], kind, section, r.id)
            &&& has_only_kind(r.devices[c], kind)
            &&& if has_kind(v, kind) {
                &&& c < v.len()
                &&& r.devices == v.update(c, r.devices[c])
                &&& is_of_kind(v[c], kind)
                &&& is_set_up_anew(r.devices[c], v[c])
            } else {
                &&& c == if at < v.len() {
                    at
                } else {
                    v.len() as int
                }
                &&& r.devices == v.insert(c, r.devices[c])
                &&& r.id == next
            }
            &&& r.id != 0 || next == 0
            &&& next <= r.next
        }),
{
    let settings = native_migration::section_params(section);
    let bypassed = native_migration::section_bypassed(section);
    let r = native_migration::installed(v, kind, settings, bypassed, at, next);
    lemma_device_keys();
    lemma_settings(section);
    lemma_builtin_place(v, kind, 0);
    match native_migration::builtin_place(v, kind, 0) {
        Some(i) => {
            let old = v[i].at("Native"@)->0;
            let n = old->Object_0;
            let number = Tree::Number(Number::Unsigned(r.id));
            let n1 = json::with(n, "id"@, number);
            let n2 = json::with(n1, "params"@, native_migration::single(kind, settings));
            let n3 = json::with(n2, "bypassed"@, Tree::Bool(bypassed));
            let d = r.devices[i];
            json::law_with(v[i]->Object_0, "Native"@, Tree::Object(n3), "Native"@);
            assert(d.at("Native"@) == Some(Tree::Object(n3)));
            json::law_with(n, "id"@, number, "builtin"@);
            json::law_with(n1, "params"@, native_migration::single(kind, settings), "builtin"@);
            json::law_with(n1, "params"@, native_migration::single(kind, settings), "id"@);
            json::law_with(n2, "bypassed"@, Tree::Bool(bypassed), "builtin"@);
            json::law_with(n2, "bypassed"@, Tree::Bool(bypassed), "id"@);
            json::law_with(n2, "bypassed"@, Tree::Bool(bypassed), "params"@);
            lemma_single(kind, settings, kind);
            assert(does_what_it_did(d, kind, section, r.id));
            assert forall|other: Seq<char>| other != kind implies !#[trigger] is_of_kind(d, other) by {
                lemma_single(kind, settings, other);
            }
            assert forall|key: Seq<char>| key != "Native"@ implies #[trigger] d.at(key) == v[i].at(key) by {
                json::law_with(v[i]->Object_0, "Native"@, Tree::Object(n3), key);
            }
            assert forall|key: Seq<char>|
                key != "id"@ && key != "params"@ && key != "bypassed"@ implies #[trigger] d.at("Native"@)->0.at(key)
                == old.at(key) by {
                json::law_with(n, "id"@, number, key);
                json::law_with(n1, "params"@, native_migration::single(kind, settings), key);
                json::law_with(n2, "bypassed"@, Tree::Bool(bypassed), key);
            }
            assert forall|k: int| 0 <= k < i implies !#[trigger] is_of_kind(r.devices[k], kind) by {
                assert(r.devices[k] == v[k]);
            }
            assert(has_kind(v, kind));
            i
        },
        None => {
            let c = if at < v.len() {
                at
            } else {
                v.len() as int
            };
            let d = r.devices[c];
            let n = seq![
                Field { key: "id"@, value: Tree::Number(Number::Unsigned(next)) },
                Field { key: "builtin"@, value: Tree::Bool(true) },
                Field { key: "ordinal"@, value: Tree::Number(Number::Unsigned(1)) },
                Field { key: "bypassed"@, value: Tree::Bool(bypassed) },
                Field { key: "params"@, value: native_migration::single(kind, settings) },
            ];
            lemma_single("Native"@, Tree::Object(n), "Native"@);
            json::lemma_key_place_is(n, "id"@, 0);
            json::lemma_key_place_is(n, "builtin"@, 1);
            json::lemma_key_place_is(n, "bypassed"@, 3);
            json::lemma_key_place_is(n, "params"@, 4);
            lemma_single(kind, settings, kind);
            assert(does_what_it_did(d, kind, section, r.id));
            assert forall|other: Seq<char>| other != kind implies !#[trigger] is_of_kind(d, other) by {
                lemma_single(kind, settings, other);
            }
            assert forall|k: int| 0 <= k < c implies !#[trigger] is_of_kind(r.devices[k], kind) by {
                assert(r.devices[k] == v[k]);
            }
            c
        },
    }
}

// ---------------------------------------------------------------------------
// Targets
// ---------------------------------------------------------------------------

/// Whether a value is a name, written as a text or as the one key of an object.
pub open spec fn is_named(t: Tree, name: Seq<char>) -> bool {
    ||| t == Tree::Text(name)
    ||| t matches Tree::Object(f) && f.len() == 1 && f[0].key == name && f[0].value == Tree::Null
}

/// Whether a value names a knob of the compressor.
pub open spec fn is_comp_knob(t: Tree) -> bool {
    ||| is_named(t, "Threshold"@)
    ||| is_named(t, "Ratio"@)
    ||| is_named(t, "Attack"@)
    ||| is_named(t, "Release"@)
    ||| is_named(t, "Makeup"@)
    ||| is_named(t, "ScFreq"@)
}

/// Whether a value names a knob of the equaliser: the frequency of any band, the gain of
/// one that is no filter, or the Q of one in the middle.
pub open spec fn is_eq_knob(t: Tree) -> bool {
    &&& t.at("band"@) is Some
    &&& t.at("param"@) is Some
    &&& {
        let band = t.at("band"@)->0;
        let param = t.at("param"@)->0;
        let is_filter = is_named(band, "Hp"@) || is_named(band, "Lp"@);
        let is_middle = is_named(band, "Lmf"@) || is_named(band, "Hmf"@);
        let is_shelf = is_named(band, "Lf"@) || is_named(band, "Hf"@);
        ||| is_named(param, "Freq"@) && (is_filter || is_middle || is_shelf)
        ||| is_named(param, "Gain"@) && (is_middle || is_shelf)
        ||| is_named(param, "Q"@) && is_middle
    }
}

/// Whether a value names a band.
pub open spec fn is_one_of_bands(t: Tree, bands: Seq<Seq<char>>) -> bool {
    exists|i: int| 0 <= i < bands.len() && is_named(t, #[trigger] bands[i])
}

/// Whether a target is a parameter of a native device.
pub open spec fn is_param_of(target: Tree, device: u64, key: Seq<char>, value: Tree) -> bool {
    let n = target.at("NativeParam"@)->0;
    &&& target.at("NativeParam"@) is Some
    &&& n.at("device_id"@) == Some(Tree::Number(Number::Unsigned(device)))
    &&& n.at("param"@) is Some
    &&& n.at("param"@)->0.at(key) == Some(value)
}

/// Whether a target of a track is lost: one that belongs to the master, or a knob that is
/// not there.
pub open spec fn is_lost_on_track(target: Tree) -> bool {
    let b = target.at("TrackBuiltin"@)->0;
    ||| target.at("MasterStrip"@) is Some
    ||| target.at("TrackBuiltin"@) is Some && b.at("StripComp"@) is Some && !(b.at("StripComp"@)->0.at("param"@) is Some
        && is_comp_knob(b.at("StripComp"@)->0.at("param"@)->0))
    ||| target.at("TrackBuiltin"@) is Some && b.at("StripComp"@) is None && b.at("StripEq"@) is Some && !is_eq_knob(
        b.at("StripEq"@)->0,
    )
}

/// Whether a target of a track goes on meaning what it meant.
pub open spec fn means_the_same_on_track(now: Tree, was: Tree, comp: u64, eq: u64) -> bool {
    let b = was.at("TrackBuiltin"@)->0;
    if was.at("TrackBuiltin"@) is None {
        now == was
    } else if b == Tree::Text("StripCompOn"@) {
        is_param_of(now, comp, "On"@, Tree::Text("Comp"@))
    } else if b == Tree::Text("StripEqOn"@) {
        is_param_of(now, eq, "On"@, Tree::Text("Eq"@))
    } else if b.at("StripComp"@) is Some {
        is_param_of(now, comp, "Comp"@, b.at("StripComp"@)->0.at("param"@)->0)
    } else if b.at("StripEq"@) is Some {
        is_param_of(now, eq, "Eq"@, b.at("StripEq"@)->0)
    } else {
        now == was
    }
}

/// Whether a value names a part of the strip of a track.
pub open spec fn is_strip_part(b: Tree) -> bool {
    let name = match b {
        Tree::Text(s) => s,
        Tree::Object(f) => f[0].key,
        _ => Seq::empty(),
    };
    &&& b is Text || b is Object && b->Object_0.len() > 0
    &&& name == "StripEqOn"@ || name == "StripCompOn"@ || name == "StripEq"@ || name == "StripComp"@
}

/// Whether a value names a switch or a knob of the master strip.
pub open spec fn is_master_part(m: Tree) -> bool {
    ||| m == Tree::Text("CompOn"@)
    ||| m == Tree::Text("EqOn"@)
    ||| m == Tree::Text("CompThreshold"@)
    ||| m == Tree::Text("CompRatio"@)
    ||| m == Tree::Text("CompAttack"@)
    ||| m == Tree::Text("CompRelease"@)
    ||| m == Tree::Text("CompMakeup"@)
    ||| m == Tree::Text("LimiterOn"@)
    ||| m == Tree::Text("LimiterCeiling"@)
}

/// Whether a target of the master is lost: one that belongs to a track, or something that
/// is not there.
pub open spec fn is_lost_on_master(target: Tree, bands: Seq<Seq<char>>) -> bool {
    let m = target.at("MasterStrip"@)->0;
    ||| target.at("TrackBuiltin"@) is Some && is_strip_part(target.at("TrackBuiltin"@)->0)
    ||| target.at("MasterStrip"@) is Some && m.at("EqGain"@) is Some && !is_one_of_bands(m.at("EqGain"@)->0, bands)
    ||| target.at("MasterStrip"@) is Some && m.at("EqGain"@) is None && !is_master_part(m)
}

/// Whether a target of the master goes on meaning what it meant.
pub open spec fn means_the_same_on_master(now: Tree, was: Tree, bus: u64, tone: u64) -> bool {
    let m = was.at("MasterStrip"@)->0;
    if was.at("MasterStrip"@) is None {
        now == was
    } else {
        &&& m.at("EqGain"@) is Some ==> is_param_of(now, tone, "ToneEq"@, m.at("EqGain"@)->0)
        &&& m == Tree::Text("CompOn"@) ==> is_param_of(now, bus, "On"@, Tree::Text("BusComp"@))
        &&& m == Tree::Text("EqOn"@) ==> is_param_of(now, tone, "On"@, Tree::Text("ToneEq"@))
        &&& m == Tree::Text("CompThreshold"@) ==> is_param_of(now, bus, "BusComp"@, Tree::Text("Threshold"@))
        &&& m == Tree::Text("CompRatio"@) ==> is_param_of(now, bus, "BusComp"@, Tree::Text("Ratio"@))
        &&& m == Tree::Text("CompAttack"@) ==> is_param_of(now, bus, "BusComp"@, Tree::Text("Attack"@))
        &&& m == Tree::Text("CompRelease"@) ==> is_param_of(now, bus, "BusComp"@, Tree::Text("Release"@))
        &&& m == Tree::Text("CompMakeup"@) ==> is_param_of(now, bus, "BusComp"@, Tree::Text("Makeup"@))
        &&& m == Tree::Text("LimiterOn"@) ==> now.at("MasterLimiter"@) == Some(Tree::Text("On"@))
        &&& m == Tree::Text("LimiterCeiling"@) ==> now.at("MasterLimiter"@) == Some(Tree::Text("Ceiling"@))
    }
}

/// Whether a lane or routing is lost.
pub open spec fn is_lost(item: Tree, devices: StripDevices, bands: Seq<Seq<char>>) -> bool {
    &&& item.at("target"@) is Some
    &&& match devices {
        StripDevices::Track { comp, eq } => is_lost_on_track(item.at("target"@)->0),
        StripDevices::Master { bus, tone } => is_lost_on_master(item.at("target"@)->0, bands),
    }
}

/// Whether a lane or routing goes on meaning what it meant: nothing but its target has
/// changed, and that is the device which does what was meant.
pub open spec fn means_the_same(now: Tree, was: Tree, devices: StripDevices) -> bool {
    &&& forall|key: Seq<char>| key != "target"@ ==> #[trigger] now.at(key) == was.at(key)
    &&& now.at("target"@) is Some <==> was.at("target"@) is Some
    &&& was.at("target"@) is Some ==> match devices {
        StripDevices::Track { comp, eq } => means_the_same_on_track(
            now.at("target"@)->0,
            was.at("target"@)->0,
            comp,
            eq,
        ),
        StripDevices::Master { bus, tone } => means_the_same_on_master(
            now.at("target"@)->0,
            was.at("target"@)->0,
            bus,
            tone,
        ),
    }
}

/// Whether lanes or routings go on meaning what they meant, in order, without those that
/// are lost. `at` is where each of them was.
pub open spec fn mean_the_same(
    now: Seq<Tree>,
    was: Seq<Tree>,
    devices: StripDevices,
    bands: Seq<Seq<char>>,
    at: Seq<int>,
) -> bool {
    &&& at.len() == now.len()
    &&& time_laws::are_ordered(at, was.len())
    &&& forall|i: int| 0 <= i < was.len() ==> (#[trigger] at.contains(i) <==> !is_lost(was[i], devices, bands))
    &&& forall|k: int| 0 <= k < now.len() ==> means_the_same(now[k], was[#[trigger] at[k]], devices)
}

/// Whether lanes or routings go on meaning what they meant, see [`mean_the_same`].
pub open spec fn list_means_the_same(
    now: Seq<Tree>,
    was: Seq<Tree>,
    devices: StripDevices,
    bands: Seq<Seq<char>>,
) -> bool {
    exists|at: Seq<int>| #[trigger] mean_the_same(now, was, devices, bands, at)
}

/// Whether a member that lists lanes or routings goes on meaning what it meant.
pub open spec fn means_the_same_at(
    now: Option<Tree>,
    was: Option<Tree>,
    devices: StripDevices,
    bands: Seq<Seq<char>>,
) -> bool {
    match was {
        Some(Tree::List(v)) => {
            &&& now is Some
            &&& now->0 is List
            &&& list_means_the_same(now->0->List_0, v, devices, bands)
        },
        _ => now == was,
    }
}

proof fn lemma_unit_name(t: Tree, name: Seq<char>)
    ensures
        is_named(t, name) <==> native_migration::unit_name(t) == Some(name),
{
}

proof fn lemma_comp_knob(t: Tree)
    ensures
        is_comp_knob(t) == native_migration::names_comp_param(t),
{
}

proof fn lemma_band_names()
    ensures
        "Hp"@ != "Lp"@,
        "Hp"@ != "Lf"@,
        "Hp"@ != "Hf"@,
        "Lp"@ != "Lf"@,
        "Lp"@ != "Hf"@,
        "Lf"@ != "Hf"@,
        "Lmf"@ != "Hmf"@,
        "Hp"@.len() == 2,
        "Lp"@.len() == 2,
        "Lf"@.len() == 2,
        "Hf"@.len() == 2,
        "Lmf"@.len() == 3,
        "Hmf"@.len() == 3,
        "Freq"@ != "Gain"@,
        "Freq"@.len() == 4,
        "Gain"@.len() == 4,
        "Q"@.len() == 1,
{
    reveal_strlit("Hp");
    reveal_strlit("Lp");
    reveal_strlit("Lf");
    reveal_strlit("Hf");
    reveal_strlit("Lmf");
    reveal_strlit("Hmf");
    reveal_strlit("Freq");
    reveal_strlit("Gain");
    reveal_strlit("Q");
    assert("Hp"@[0] != "Lp"@[0] && "Hp"@[1] != "Hf"@[1] && "Hp"@[0] != "Lf"@[0]);
    assert("Lp"@[1] != "Lf"@[1] && "Lp"@[0] != "Hf"@[0] && "Lf"@[0] != "Hf"@[0]);
    assert("Lmf"@[0] != "Hmf"@[0] && "Freq"@[0] != "Gain"@[0]);
}

proof fn lemma_eq_knob(t: Tree)
    ensures
        is_eq_knob(t) == native_migration::names_eq_param(t),
{
    lemma_band_names();
}

proof fn lemma_tone_band(t: Tree, bands: Seq<Seq<char>>)
    ensures
        is_one_of_bands(t, bands) == native_migration::names_tone_band(t, bands),
{
    if is_one_of_bands(t, bands) {
        let i = choose|i: int| 0 <= i < bands.len() && is_named(t, #[trigger] bands[i]);
        lemma_unit_name(t, bands[i]);
        assert(bands.contains(bands[i]));
    }
    if native_migration::names_tone_band(t, bands) {
        let s = native_migration::unit_name(t)->0;
        let i = choose|i: int| 0 <= i < bands.len() && bands[i] == s;
        lemma_unit_name(t, bands[i]);
    }
}

proof fn lemma_master_names()
    ensures
        "CompOn"@.len() == 6,
        "EqOn"@.len() == 4,
        "CompThreshold"@.len() == 13,
        "CompRatio"@.len() == 9,
        "CompAttack"@.len() == 10,
        "CompRelease"@.len() == 11,
        "CompMakeup"@.len() == 10,
        "LimiterOn"@.len() == 9,
        "LimiterCeiling"@.len() == 14,
        "CompRatio"@ != "LimiterOn"@,
        "CompAttack"@ != "CompMakeup"@,
        "StripCompOn"@.len() == 11,
        "StripEqOn"@.len() == 9,
{
    reveal_strlit("CompOn");
    reveal_strlit("EqOn");
    reveal_strlit("CompThreshold");
    reveal_strlit("CompRatio");
    reveal_strlit("CompAttack");
    reveal_strlit("CompRelease");
    reveal_strlit("CompMakeup");
    reveal_strlit("LimiterOn");
    reveal_strlit("LimiterCeiling");
    reveal_strlit("StripCompOn");
    reveal_strlit("StripEqOn");
    assert("CompRatio"@[0] != "LimiterOn"@[0]);
    assert("CompAttack"@[4] != "CompMakeup"@[4]);
}

proof fn lemma_param_of(device: u64, key: Seq<char>, value: Tree)
    ensures
        is_param_of(
            native_migration::native_target(device, native_migration::single(key, value)),
            device,
            key,
            value,
        ),
{
    let param = native_migration::single(key, value);
    let n = seq![
        Field { key: "device_id"@, value: Tree::Number(Number::Unsigned(device)) },
        Field { key: "param"@, value: param },
    ];
    reveal_strlit("device_id");
    reveal_strlit("param");
    assert("device_id"@.len() == 9 && "param"@.len() == 5);
    lemma_single("NativeParam"@, Tree::Object(n), "NativeParam"@);
    json::lemma_key_place_is(n, "device_id"@, 0);
    json::lemma_key_place_is(n, "param"@, 1);
    lemma_single(key, value, key);
}

proof fn lemma_track_target(target: Tree, comp: u64, eq: u64)
    ensures
        match native_migration::track_target(target, comp, eq) {
            native_migration::Rewrite::Keep => !is_lost_on_track(target) && means_the_same_on_track(
                target,
                target,
                comp,
                eq,
            ),
            native_migration::Rewrite::Replace(t) => !is_lost_on_track(target) && means_the_same_on_track(
                t,
                target,
                comp,
                eq,
            ),
            native_migration::Rewrite::Drop => is_lost_on_track(target),
        },
{
    lemma_master_names();
    if let Some(b) = target.at("TrackBuiltin"@) {
        lemma_param_of(comp, "On"@, Tree::Text("Comp"@));
        lemma_param_of(eq, "On"@, Tree::Text("Eq"@));
        if let Some(p) = b.at("StripComp"@) {
            if let Some(q) = p.at("param"@) {
                lemma_comp_knob(q);
                lemma_param_of(comp, "Comp"@, q);
            }
        }
        if let Some(p) = b.at("StripEq"@) {
            lemma_eq_knob(p);
            lemma_param_of(eq, "Eq"@, p);
        }
    }
}

#[verifier::rlimit(40)]
proof fn lemma_master_target(target: Tree, bus: u64, tone: u64, bands: Seq<Seq<char>>)
    ensures
        match native_migration::master_target(target, bus, tone, bands) {
            native_migration::Rewrite::Keep => !is_lost_on_master(target, bands) && means_the_same_on_master(
                target,
                target,
                bus,
                tone,
            ),
            native_migration::Rewrite::Replace(t) => !is_lost_on_master(target, bands) && means_the_same_on_master(
                t,
                target,
                bus,
                tone,
            ),
            native_migration::Rewrite::Drop => is_lost_on_master(target, bands),
        },
{
    lemma_master_names();
    if let Some(m) = target.at("MasterStrip"@) {
        if let Some(band) = m.at("EqGain"@) {
            lemma_tone_band(band, bands);
            lemma_param_of(tone, "ToneEq"@, band);
        }
        lemma_param_of(bus, "On"@, Tree::Text("BusComp"@));
        lemma_param_of(tone, "On"@, Tree::Text("ToneEq"@));
        lemma_param_of(bus, "BusComp"@, Tree::Text("Threshold"@));
        lemma_param_of(bus, "BusComp"@, Tree::Text("Ratio"@));
        lemma_param_of(bus, "BusComp"@, Tree::Text("Attack"@));
        lemma_param_of(bus, "BusComp"@, Tree::Text("Release"@));
        lemma_param_of(bus, "BusComp"@, Tree::Text("Makeup"@));
        lemma_single("MasterLimiter"@, Tree::Text("On"@), "MasterLimiter"@);
        lemma_single("MasterLimiter"@, Tree::Text("Ceiling"@), "MasterLimiter"@);
    }
}

proof fn lemma_item(item: Tree, devices: StripDevices, bands: Seq<Seq<char>>)
    ensures
        ({
            let now = native_migration::new_item(item, devices, bands);
            if is_lost(item, devices, bands) {
                now.len() == 0
            } else {
                now.len() == 1 && means_the_same(now[0], item, devices)
            }
        }),
{
    if let Some(target) = item.at("target"@) {
        match devices {
            StripDevices::Track { comp, eq } => lemma_track_target(target, comp, eq),
            StripDevices::Master { bus, tone } => lemma_master_target(target, bus, tone, bands),
        }
        if let native_migration::Rewrite::Replace(t) = native_migration::new_target(target, devices, bands) {
            let now = Tree::Object(json::with(item->Object_0, "target"@, t));
            json::law_with(item->Object_0, "target"@, t, "target"@);
            assert forall|key: Seq<char>| key != "target"@ implies #[trigger] now.at(key) == item.at(key) by {
                json::law_with(item->Object_0, "target"@, t, key);
            }
        }
    }
}

proof fn lemma_items(v: Seq<Tree>, devices: StripDevices, bands: Seq<Seq<char>>) -> (at: Seq<int>)
    ensures
        mean_the_same(native_migration::new_items(v, devices, bands), v, devices, bands, at),
    decreases v.len(),
{
    let now = native_migration::new_items(v, devices, bands);
    if v.len() == 0 {
        Seq::empty()
    } else {
        let front = v.drop_last();
        let n = v.len() - 1;
        let before = lemma_items(front, devices, bands);
        let first = native_migration::new_items(front, devices, bands);
        lemma_item(v.last(), devices, bands);
        time_laws::lemma_grown(before, n);
        let at = if is_lost(v.last(), devices, bands) {
            before
        } else {
            before.push(n)
        };
        assert forall|i: int| 0 <= i < v.len() implies (#[trigger] at.contains(i) <==> !is_lost(
            v[i],
            devices,
            bands,
        )) by {
            assert(before.push(n).contains(i) <==> before.contains(i) || i == n);
            if i < n {
                assert(before.contains(i) <==> !is_lost(front[i], devices, bands));
            }
        }
        assert forall|k: int| 0 <= k < now.len() implies means_the_same(now[k], v[#[trigger] at[k]], devices) by {
            if k < first.len() {
                assert(now[k] == first[k]);
                assert(before[k] < n);
                assert(means_the_same(first[k], front[before[k]], devices));
            }
        }
        at
    }
}

proof fn lemma_targets(
    f: Seq<Field>,
    key: Seq<char>,
    devices: StripDevices,
    bands: Seq<Seq<char>>,
)
    ensures
        means_the_same_at(
            json::get(native_migration::with_new_targets(f, key, devices, bands), key),
            json::get(f, key),
            devices,
            bands,
        ),
        forall|other: Seq<char>|
            other != key ==> #[trigger] json::get(
                native_migration::with_new_targets(f, key, devices, bands),
                other,
            ) == json::get(f, other),
{
    if let Some(Tree::List(v)) = json::get(f, key) {
        let w = native_migration::new_items(v, devices, bands);
        let at = lemma_items(v, devices, bands);
        json::law_with(f, key, Tree::List(w), key);
        assert(list_means_the_same(w, v, devices, bands));
        assert forall|other: Seq<char>| other != key implies #[trigger] json::get(
            native_migration::with_new_targets(f, key, devices, bands),
            other,
        ) == json::get(f, other) by {
            json::law_with(f, key, Tree::List(w), other);
        }
    }
}

// ---------------------------------------------------------------------------
// Tracks
// ---------------------------------------------------------------------------

/// A part of something that may not be there.
pub open spec fn part_of(t: Option<Tree>, key: Seq<char>) -> Option<Tree> {
    if t is Some {
        t->0.at(key)
    } else {
        None
    }
}

/// What is listed; nothing, if it is not there.
pub open spec fn listed(t: Option<Tree>) -> Seq<Tree> {
    match t {
        Some(Tree::List(v)) => v,
        _ => Seq::empty(),
    }
}

/// Whether a chain has the devices in it that the two sections of a strip became, behind
/// everything else if they were not there before. `c` and `e` are where they stand.
pub open spec fn is_chain_of_track(
    now: Seq<Tree>,
    was: Seq<Tree>,
    strip: Option<Tree>,
    comp: u64,
    eq: u64,
    c: int,
    e: int,
) -> bool {
    &&& is_first_of_kind(now, "Comp"@, c)
    &&& does_what_it_did(now[c], "Comp"@, part_of(strip, "comp"@), comp)
    &&& is_first_of_kind(now, "Eq"@, e)
    &&& does_what_it_did(now[e], "Eq"@, part_of(strip, "eq"@), eq)
    &&& c != e
    &&& was.len() <= now.len()
    &&& forall|k: int| 0 <= k < was.len() && k != c && k != e ==> #[trigger] now[k] == was[k]
    &&& now.len() == was.len() + if c < was.len() && e < was.len() {
        0int
    } else if c < was.len() || e < was.len() {
        1
    } else {
        2
    }
    &&& c < was.len() <==> has_kind(was, "Comp"@)
    &&& c < was.len() ==> is_of_kind(was[c], "Comp"@) && is_set_up_anew(now[c], was[c])
    &&& c >= was.len() ==> c == was.len()
    &&& e < was.len() ==> is_of_kind(was[e], "Eq"@) && is_set_up_anew(now[e], was[e])
    &&& e >= was.len() ==> e == now.len() - 1 && forall|k: int|
        0 <= k < was.len() && k != c ==> !#[trigger] is_of_kind(was[k], "Eq"@)
}

/// Whether a track is another one with the two sections of its strip as devices.
pub open spec fn is_track_with_devices(now: Tree, was: Tree, comp: u64, eq: u64, c: int, e: int) -> bool {
    let devices = StripDevices::Track { comp, eq };
    let none = Seq::<Seq<char>>::empty();
    &&& now.at("strip"@) is None
    &&& now.at("devices"@) is Some
    &&& now.at("devices"@)->0 is List
    &&& comp != 0
    &&& eq != 0
    &&& is_chain_of_track(
        listed(now.at("devices"@)),
        listed(was.at("devices"@)),
        was.at("strip"@),
        comp,
        eq,
        c,
        e,
    )
    &&& means_the_same_at(now.at("automation_lanes"@), was.at("automation_lanes"@), devices, none)
    &&& means_the_same_at(now.at("mod_routings"@), was.at("mod_routings"@), devices, none)
    &&& forall|key: Seq<char>|
        key != "strip"@ && key != "devices"@ && key != "automation_lanes"@ && key != "mod_routings"@
            ==> #[trigger] now.at(key) == was.at(key)
}

#[verifier::rlimit(60)]
proof fn lemma_chain_of_track(v: Seq<Tree>, strip: Option<Tree>, next: u64) -> (found: (u64, u64, int, int))
    requires
        next > 0,
    ensures
        ({
            let comp = native_migration::section(strip, "comp"@);
            let eq = native_migration::section(strip, "eq"@);
            let a = native_migration::installed(
                v,
                "Comp"@,
                native_migration::section_params(comp),
                native_migration::section_bypassed(comp),
                v.len() as int,
                next,
            );
            let b = native_migration::installed(
                a.devices,
                "Eq"@,
                native_migration::section_params(eq),
                native_migration::section_bypassed(eq),
                a.devices.len() as int,
                a.next,
            );
            &&& found.0 == a.id
            &&& found.1 == b.id
            &&& a.id != 0
            &&& b.id != 0
            &&& b.next >= next
            &&& is_chain_of_track(b.devices, v, strip, a.id, b.id, found.2, found.3)
        }),
{
    let comp = native_migration::section(strip, "comp"@);
    let eq = native_migration::section(strip, "eq"@);
    assert(comp == part_of(strip, "comp"@) && eq == part_of(strip, "eq"@));
    lemma_device_keys();
    let a = native_migration::installed(
        v,
        "Comp"@,
        native_migration::section_params(comp),
        native_migration::section_bypassed(comp),
        v.len() as int,
        next,
    );
    let b = native_migration::installed(
        a.devices,
        "Eq"@,
        native_migration::section_params(eq),
        native_migration::section_bypassed(eq),
        a.devices.len() as int,
        a.next,
    );
    let c = lemma_installed(v, "Comp"@, comp, v.len() as int, next);
    let e = lemma_installed(a.devices, "Eq"@, eq, a.devices.len() as int, a.next);
    assert(!is_of_kind(a.devices[c], "Eq"@));
    assert(e != c);
    assert(b.devices[c] == a.devices[c]);
    assert forall|k: int| 0 <= k < c implies !#[trigger] is_of_kind(b.devices[k], "Comp"@) by {
        if k == e {
            assert(!is_of_kind(b.devices[e], "Comp"@));
        } else {
            assert(b.devices[k] == a.devices[k]);
        }
    }
    assert(is_first_of_kind(b.devices, "Comp"@, c));
    if e >= v.len() {
        assert forall|k: int| 0 <= k < v.len() && k != c implies !#[trigger] is_of_kind(v[k], "Eq"@) by {
            assert(a.devices[k] == v[k]);
            assert(!is_of_kind(a.devices[k], "Eq"@));
        }
    } else {
        assert(a.devices[e] == v[e]);
    }
    (a.id, b.id, c, e)
}

#[verifier::rlimit(60)]
proof fn lemma_track_with_devices(track: Tree, next: u64) -> (found: (u64, u64, int, int))
    requires
        track is Object,
        track.at("devices"@) is Some ==> track.at("devices"@)->0 is List,
        next > 0,
    ensures
        native_migration::native_track(track, next).1 >= next,
        is_track_with_devices(
            native_migration::native_track(track, next).0,
            track,
            found.0,
            found.1,
            found.2,
            found.3,
        ),
{
    native_migration::lemma_song_keys();
    let f = track->Object_0;
    let bare = json::without(f, "strip"@);
    json::law_without(f, "strip"@, "devices"@);
    let g = native_migration::with_list(bare, "devices"@);
    let empty = Tree::List(Seq::empty());
    json::law_with(bare, "devices"@, empty, "devices"@);
    json::lemma_key_place(bare, "devices"@, 0);
    let v = json::get(g, "devices"@)->0->List_0;
    assert(v == listed(track.at("devices"@)));
    let strip = json::get(f, "strip"@);
    let found = lemma_chain_of_track(v, strip, next);
    let devices = StripDevices::Track { comp: found.0, eq: found.1 };
    let none = Seq::<Seq<char>>::empty();
    let now = native_migration::native_track(track, next).0->Object_0;
    let comp = native_migration::section(strip, "comp"@);
    let eq = native_migration::section(strip, "eq"@);
    let a = native_migration::installed(
        v,
        "Comp"@,
        native_migration::section_params(comp),
        native_migration::section_bypassed(comp),
        v.len() as int,
        next,
    );
    let b = native_migration::installed(
        a.devices,
        "Eq"@,
        native_migration::section_params(eq),
        native_migration::section_bypassed(eq),
        a.devices.len() as int,
        a.next,
    );
    let list = Tree::List(b.devices);
    let h = json::with(g, "devices"@, list);
    let k = native_migration::with_new_targets(h, "automation_lanes"@, devices, none);
    assert(now == native_migration::with_new_targets(k, "mod_routings"@, devices, none));
    lemma_targets(h, "automation_lanes"@, devices, none);
    lemma_targets(k, "mod_routings"@, devices, none);
    assert forall|key: Seq<char>| key != "strip"@ && key != "devices"@ implies #[trigger] json::get(h, key)
        == json::get(f, key) by {
        json::law_without(f, "strip"@, key);
        json::law_with(bare, "devices"@, empty, key);
        json::law_with(g, "devices"@, list, key);
    }
    json::law_with(g, "devices"@, list, "devices"@);
    json::law_with(bare, "devices"@, empty, "strip"@);
    json::law_with(g, "devices"@, list, "strip"@);
    assert(json::get(h, "strip"@) is None);
    assert(json::get(k, "mod_routings"@) == json::get(f, "mod_routings"@));
    assert(json::get(h, "automation_lanes"@) == json::get(f, "automation_lanes"@));
    assert(json::get(now, "automation_lanes"@) == json::get(k, "automation_lanes"@));
    assert(json::get(now, "devices"@) == json::get(k, "devices"@));
    assert(json::get(now, "strip"@) == json::get(k, "strip"@));
    assert forall|key: Seq<char>|
        key != "strip"@ && key != "devices"@ && key != "automation_lanes"@ && key
            != "mod_routings"@ implies #[trigger] native_migration::native_track(track, next).0.at(key) == track.at(
        key,
    ) by {
        assert(json::get(now, key) == json::get(k, key));
        assert(json::get(k, key) == json::get(h, key));
        assert(json::get(h, key) == json::get(f, key));
    }
    found
}

// ---------------------------------------------------------------------------
// Songs
// ---------------------------------------------------------------------------

/// Whether the target of a lane or routing is a part of a strip.
pub open spec fn targets_a_strip(item: Tree) -> bool {
    let target = item.at("target"@)->0;
    &&& item.at("target"@) is Some
    &&& target.at("MasterStrip"@) is Some || target.at("TrackBuiltin"@) is Some && is_strip_part(
        target.at("TrackBuiltin"@)->0,
    )
}

/// Whether any lane or routing of a list targets a strip.
pub open spec fn some_target_a_strip(t: Option<Tree>) -> bool {
    exists|k: int| 0 <= k < listed(t).len() && targets_a_strip(#[trigger] listed(t)[k])
}

/// Whether a song has a strip, or anything that targets one.
pub open spec fn has_old_parts(song: Tree) -> bool {
    ||| song.at("master_strip"@) is Some
    ||| exists|i: int|
        0 <= i < listed(song.at("tracks"@)).len() && (#[trigger] listed(song.at("tracks"@))[i]).at("strip"@) is Some
    ||| exists|i: int|
        0 <= i < listed(song.at("tracks"@)).len() && some_target_a_strip(
            (#[trigger] listed(song.at("tracks"@))[i]).at("automation_lanes"@),
        )
    ||| exists|i: int|
        0 <= i < listed(song.at("tracks"@)).len() && some_target_a_strip(
            (#[trigger] listed(song.at("tracks"@))[i]).at("mod_routings"@),
        )
    ||| some_target_a_strip(song.at("song_lanes"@))
    ||| some_target_a_strip(song.at("song_mod_routings"@))
}

proof fn lemma_lists_old(t: Option<Tree>)
    ensures
        native_migration::lists_old(t) == some_target_a_strip(t),
{
    let v = device_chains::list_at(t);
    assert(v == listed(t));
    if some_target_a_strip(t) {
        let k = choose|k: int| 0 <= k < listed(t).len() && targets_a_strip(#[trigger] listed(t)[k]);
        assert(native_migration::is_old_item(v[k]));
    }
    if native_migration::lists_old(t) {
        let k = choose|k: int| 0 <= k < v.len() && #[trigger] native_migration::is_old_item(v[k]);
        assert(targets_a_strip(listed(t)[k]));
    }
}

/// A song has strips if and only if it has a strip, or anything that targets one.
pub proof fn law_strips_are_found(song: Tree)
    ensures
        native_migration::has_strips(song) == has_old_parts(song),
{
    let v = listed(song.at("tracks"@));
    assert(v == device_chains::list_at(song.at("tracks"@)));
    lemma_lists_old(song.at("song_lanes"@));
    lemma_lists_old(song.at("song_mod_routings"@));
    assert forall|i: int| 0 <= i < v.len() implies (#[trigger] native_migration::is_old_track(v[i]) <==> v[i].at(
        "strip"@,
    ) is Some || some_target_a_strip(v[i].at("automation_lanes"@)) || some_target_a_strip(
        v[i].at("mod_routings"@),
    )) by {
        lemma_lists_old(v[i].at("automation_lanes"@));
        lemma_lists_old(v[i].at("mod_routings"@));
    }
    if native_migration::has_strips(song) && !has_old_parts(song) {
        let i = choose|i: int|
            0 <= i < device_chains::list_at(song.at("tracks"@)).len() && #[trigger] native_migration::is_old_track(
                device_chains::list_at(song.at("tracks"@))[i],
            );
        assert(v[i].at("strip"@) is None);
        assert(false);
    }
    if has_old_parts(song) && !native_migration::has_strips(song) {
        assert forall|i: int| 0 <= i < v.len() implies (#[trigger] v[i]).at("strip"@) is None && !some_target_a_strip(
            v[i].at("automation_lanes"@),
        ) && !some_target_a_strip(v[i].at("mod_routings"@)) by {
            assert(!native_migration::is_old_track(device_chains::list_at(song.at("tracks"@))[i]));
        }
        assert(false);
    }
}

proof fn lemma_tracks_with_devices(v: Seq<Tree>, next: u64, i: int) -> (found: (u64, u64, int, int))
    requires
        next > 0,
        0 <= i < v.len(),
        v[i] is Object,
        v[i].at("devices"@) is Some ==> v[i].at("devices"@)->0 is List,
    ensures
        native_migration::native_tracks(v, next).0.len() == v.len(),
        is_track_with_devices(
            native_migration::native_tracks(v, next).0[i],
            v[i],
            found.0,
            found.1,
            found.2,
            found.3,
        ),
    decreases v.len(),
{
    let front = v.drop_last();
    lemma_tracks_next(front, next);
    let before = native_migration::native_tracks(front, next);
    if i == v.len() - 1 {
        lemma_track_with_devices(v[i], before.1)
    } else {
        let found = lemma_tracks_with_devices(front, next, i);
        found
    }
}

proof fn lemma_tracks_next(v: Seq<Tree>, next: u64)
    requires
        next > 0,
    ensures
        native_migration::native_tracks(v, next).0.len() == v.len(),
        native_migration::native_tracks(v, next).1 >= next,
    decreases v.len(),
{
    if v.len() > 0 {
        lemma_tracks_next(v.drop_last(), next);
        let before = native_migration::native_tracks(v.drop_last(), next).1;
        if let Tree::Object(f) = v.last() {
            let g = native_migration::with_list(json::without(f, "strip"@), "devices"@);
            if let Some(Tree::List(w)) = json::get(g, "devices"@) {
                let found = lemma_chain_of_track(w, json::get(f, "strip"@), before);
            }
        }
    }
}

proof fn lemma_song_members(song: Tree, bands: Seq<Seq<char>>)
    requires
        song is Object,
        has_old_parts(song),
    ensures
        native_migration::native_song(song, bands) == Tree::Object(
            native_migration::native_members(song->Object_0, bands),
        ),
        native_migration::first_device_id(song->Object_0) > 0,
{
    law_strips_are_found(song);
}

/// Every track of a song that has strips then has the devices that its strip became: a
/// compressor and an equaliser that run if and only if the section was on, with its
/// settings, and everything that targeted a section targets its device.
pub proof fn law_strips_of_tracks_become_devices(song: Tree, bands: Seq<Seq<char>>, i: int)
    requires
        song is Object,
        has_old_parts(song),
        0 <= i < listed(song.at("tracks"@)).len(),
        listed(song.at("tracks"@))[i] is Object,
        listed(song.at("tracks"@))[i].at("devices"@) is Some ==> listed(song.at("tracks"@))[i].at("devices"@)->0 is List,
    ensures
        ({
            let now = listed(native_migration::native_song(song, bands).at("tracks"@));
            let was = listed(song.at("tracks"@));
            &&& now.len() == was.len()
            &&& exists|comp: u64, eq: u64, c: int, e: int| #[trigger]
                is_track_with_devices(now[i], was[i], comp, eq, c, e)
        }),
{
    lemma_song_members(song, bands);
    let f = song->Object_0;
    let v = listed(song.at("tracks"@));
    let next = native_migration::first_device_id(f);
    let found = lemma_tracks_with_devices(v, next, i);
    let tracks = native_migration::with_native_tracks(f, next);
    let list = Tree::List(native_migration::native_tracks(v, next).0);
    json::law_with(f, "tracks"@, list, "tracks"@);
    let master = native_migration::with_native_master(tracks.0, tracks.1, bands);
    lemma_master_keeps(tracks.0, tracks.1, bands);
    native_migration::lemma_song_keys();
    native_migration::lemma_device_count(master.0, master.1, "tracks"@);
    assert(native_migration::native_song(song, bands).at("tracks"@) == Some(list));
    let now = listed(native_migration::native_song(song, bands).at("tracks"@));
    let was = listed(song.at("tracks"@));
    assert(is_track_with_devices(now[i], was[i], found.0, found.1, found.2, found.3));
}

/// What the master strip does not become stays as it is.
proof fn lemma_master_keeps(f: Seq<Field>, next: u64, bands: Seq<Seq<char>>)
    ensures
        forall|key: Seq<char>|
            key != "master_strip"@ && key != "master_limiter"@ && key != "master_fx_chain"@ && key != "song_lanes"@ && key
                != "song_mod_routings"@ ==> #[trigger] json::get(
                native_migration::with_native_master(f, next, bands).0,
                key,
            ) == json::get(f, key),
{
    let strip = json::get(f, "master_strip"@);
    let bare = json::without(f, "master_strip"@);
    let limiter = native_migration::section(strip, "limiter"@);
    let limited = match limiter {
        Some(l) => json::with(bare, "master_limiter"@, l),
        None => bare,
    };
    let empty = Tree::List(Seq::empty());
    let g = native_migration::with_list(limited, "master_fx_chain"@);
    assert forall|key: Seq<char>|
        key != "master_strip"@ && key != "master_limiter"@ && key != "master_fx_chain"@ && key != "song_lanes"@ && key
            != "song_mod_routings"@ implies #[trigger] json::get(
        native_migration::with_native_master(f, next, bands).0,
        key,
    ) == json::get(f, key) by {
        json::law_without(f, "master_strip"@, key);
        if let Some(l) = limiter {
            json::law_with(bare, "master_limiter"@, l, key);
        }
        json::law_with(limited, "master_fx_chain"@, empty, key);
        assert(json::get(g, key) == json::get(f, key));
        if let Some(Tree::List(v)) = json::get(g, "master_fx_chain"@) {
            let comp = native_migration::section(strip, "comp"@);
            let eq = native_migration::section(strip, "eq"@);
            let a = native_migration::installed(
                v,
                "BusComp"@,
                native_migration::section_params(comp),
                native_migration::section_bypassed(comp),
                0,
                next,
            );
            let b = native_migration::installed(
                a.devices,
                "ToneEq"@,
                native_migration::section_params(eq),
                native_migration::section_bypassed(eq),
                1,
                a.next,
            );
            let devices = StripDevices::Master { bus: a.id, tone: b.id };
            let list = Tree::List(b.devices);
            let h = json::with(g, "master_fx_chain"@, list);
            json::law_with(g, "master_fx_chain"@, list, key);
            lemma_targets(h, "song_lanes"@, devices, bands);
            let k = native_migration::with_new_targets(h, "song_lanes"@, devices, bands);
            lemma_targets(k, "song_mod_routings"@, devices, bands);
            assert(json::get(k, key) == json::get(h, key));
        }
    }
}

/// Whether a chain has the devices in it that the two sections of the master strip
/// became, in front of everything else if they were not there before.
pub open spec fn is_chain_of_master(
    now: Seq<Tree>,
    was: Seq<Tree>,
    strip: Option<Tree>,
    bus: u64,
    tone: u64,
    c: int,
    e: int,
) -> bool {
    &&& is_first_of_kind(now, "BusComp"@, c)
    &&& does_what_it_did(now[c], "BusComp"@, part_of(strip, "comp"@), bus)
    &&& is_first_of_kind(now, "ToneEq"@, e)
    &&& does_what_it_did(now[e], "ToneEq"@, part_of(strip, "eq"@), tone)
    &&& c != e
    &&& !has_kind(was, "BusComp"@) && !has_kind(was, "ToneEq"@) ==> c == 0 && e == 1 && now == seq![now[0], now[1]]
        + was
    &&& has_kind(was, "BusComp"@) && now.len() == was.len() ==> {
        &&& is_of_kind(was[c], "BusComp"@)
        &&& is_set_up_anew(now[c], was[c])
        &&& is_of_kind(was[e], "ToneEq"@)
        &&& is_set_up_anew(now[e], was[e])
        &&& forall|k: int| 0 <= k < was.len() && k != c && k != e ==> #[trigger] now[k] == was[k]
    }
    &&& forall|k: int|
        0 <= k < was.len() && !(#[trigger] is_of_kind(was[k], "BusComp"@)) && !is_of_kind(was[k], "ToneEq"@)
            ==> now.contains(was[k])
}

/// Whether a song is another one with the two sections of its master strip as devices,
/// and its limiter by itself.
pub open spec fn is_song_with_devices(
    now: Tree,
    was: Tree,
    bands: Seq<Seq<char>>,
    bus: u64,
    tone: u64,
    c: int,
    e: int,
) -> bool {
    let devices = StripDevices::Master { bus, tone };
    let strip = was.at("master_strip"@);
    &&& now.at("master_strip"@) is None
    &&& now.at("master_limiter"@) == if part_of(strip, "limiter"@) is Some {
        part_of(strip, "limiter"@)
    } else {
        was.at("master_limiter"@)
    }
    &&& now.at("master_fx_chain"@) is Some
    &&& now.at("master_fx_chain"@)->0 is List
    &&& bus != 0
    &&& tone != 0
    &&& is_chain_of_master(
        listed(now.at("master_fx_chain"@)),
        listed(was.at("master_fx_chain"@)),
        strip,
        bus,
        tone,
        c,
        e,
    )
    &&& means_the_same_at(now.at("song_lanes"@), was.at("song_lanes"@), devices, bands)
    &&& means_the_same_at(now.at("song_mod_routings"@), was.at("song_mod_routings"@), devices, bands)
    &&& forall|key: Seq<char>|
        key != "tracks"@ && key != "master_strip"@ && key != "master_limiter"@ && key != "master_fx_chain"@ && key
            != "song_lanes"@ && key != "song_mod_routings"@ && key != "ids"@ ==> #[trigger] now.at(key) == was.at(key)
}

#[verifier::rlimit(80)]
proof fn lemma_chain_of_master(v: Seq<Tree>, strip: Option<Tree>, next: u64) -> (found: (u64, u64, int, int))
    requires
        next > 0,
    ensures
        ({
            let comp = native_migration::section(strip, "comp"@);
            let eq = native_migration::section(strip, "eq"@);
            let a = native_migration::installed(
                v,
                "BusComp"@,
                native_migration::section_params(comp),
                native_migration::section_bypassed(comp),
                0,
                next,
            );
            let b = native_migration::installed(
                a.devices,
                "ToneEq"@,
                native_migration::section_params(eq),
                native_migration::section_bypassed(eq),
                1,
                a.next,
            );
            &&& found.0 == a.id
            &&& found.1 == b.id
            &&& a.id != 0
            &&& b.id != 0
            &&& b.next >= next
            &&& is_chain_of_master(b.devices, v, strip, a.id, b.id, found.2, found.3)
        }),
{
    let comp = native_migration::section(strip, "comp"@);
    let eq = native_migration::section(strip, "eq"@);
    assert(comp == part_of(strip, "comp"@) && eq == part_of(strip, "eq"@));
    lemma_device_keys();
    let a = native_migration::installed(
        v,
        "BusComp"@,
        native_migration::section_params(comp),
        native_migration::section_bypassed(comp),
        0,
        next,
    );
    let b = native_migration::installed(
        a.devices,
        "ToneEq"@,
        native_migration::section_params(eq),
        native_migration::section_bypassed(eq),
        1,
        a.next,
    );
    let c0 = lemma_installed(v, "BusComp"@, comp, 0, next);
    let e = lemma_installed(a.devices, "ToneEq"@, eq, 1, a.next);
    let tone_is_new = !has_kind(a.devices, "ToneEq"@);
    let c = if tone_is_new && c0 >= e {
        c0 + 1
    } else {
        c0
    };
    assert(!is_of_kind(a.devices[c0], "ToneEq"@));
    assert(b.devices[c] == a.devices[c0]);
    assert forall|k: int| 0 <= k < c implies !#[trigger] is_of_kind(b.devices[k], "BusComp"@) by {
        if k == e {
            assert(!is_of_kind(b.devices[e], "BusComp"@));
        } else if tone_is_new && k > e {
            assert(b.devices[k] == a.devices[k - 1]);
        } else {
            assert(b.devices[k] == a.devices[k]);
        }
    }
    assert(is_first_of_kind(b.devices, "BusComp"@, c));
    if !has_kind(v, "BusComp"@) && !has_kind(v, "ToneEq"@) {
        assert forall|k: int| 0 <= k < a.devices.len() implies !#[trigger] is_of_kind(a.devices[k], "ToneEq"@) by {
            if k > 0 {
                assert(a.devices[k] == v[k - 1]);
            }
        }
        assert(b.devices =~= seq![b.devices[0], b.devices[1]] + v);
    }
    if has_kind(v, "BusComp"@) && b.devices.len() == v.len() {
        assert(!tone_is_new);
        assert(a.devices[e] == v[e]);
    }
    assert forall|k: int|
        0 <= k < v.len() && !(#[trigger] is_of_kind(v[k], "BusComp"@)) && !is_of_kind(
            v[k],
            "ToneEq"@,
        ) implies b.devices.contains(v[k]) by {
        let j = if has_kind(v, "BusComp"@) || k < c0 {
            k
        } else {
            k + 1
        };
        assert(a.devices[j] == v[k]);
        let l = if tone_is_new && j >= e {
            j + 1
        } else {
            j
        };
        assert(b.devices[l] == v[k]);
    }
    (a.id, b.id, c, e)
}

/// A song that has strips then has the devices that its master strip became: a bus
/// compressor and a tone equaliser that run if and only if the section was on, with its
/// settings, and its limiter. Everything that targeted a part of it targets what it
/// became.
#[verifier::rlimit(60)]
pub proof fn law_the_master_strip_becomes_devices(song: Tree, bands: Seq<Seq<char>>)
    requires
        song is Object,
        has_old_parts(song),
        song.at("master_fx_chain"@) is Some ==> song.at("master_fx_chain"@)->0 is List,
    ensures
        exists|bus: u64, tone: u64, c: int, e: int| #[trigger]
            is_song_with_devices(native_migration::native_song(song, bands), song, bands, bus, tone, c, e),
{
    lemma_song_members(song, bands);
    native_migration::lemma_song_keys();
    let f0 = song->Object_0;
    let next0 = native_migration::first_device_id(f0);
    let tracks = native_migration::with_native_tracks(f0, next0);
    let f = tracks.0;
    let next = tracks.1;
    if let Some(Tree::List(v)) = json::get(f0, "tracks"@) {
        lemma_tracks_next(v, next0);
    }
    assert forall|key: Seq<char>| key != "tracks"@ implies #[trigger] json::get(f, key) == json::get(f0, key) by {
        if let Some(Tree::List(v)) = json::get(f0, "tracks"@) {
            json::law_with(f0, "tracks"@, Tree::List(native_migration::native_tracks(v, next0).0), key);
        }
    }
    let strip = json::get(f, "master_strip"@);
    assert(strip == song.at("master_strip"@));
    let bare = json::without(f, "master_strip"@);
    let limiter = native_migration::section(strip, "limiter"@);
    let limited = match limiter {
        Some(l) => json::with(bare, "master_limiter"@, l),
        None => bare,
    };
    let empty = Tree::List(Seq::empty());
    let g = native_migration::with_list(limited, "master_fx_chain"@);
    assert forall|key: Seq<char>|
        key != "master_strip"@ && key != "master_limiter"@ && key != "master_fx_chain"@ implies #[trigger] json::get(
        g,
        key,
    ) == json::get(f, key) by {
        json::law_without(f, "master_strip"@, key);
        if let Some(l) = limiter {
            json::law_with(bare, "master_limiter"@, l, key);
        }
        json::law_with(limited, "master_fx_chain"@, empty, key);
    }
    json::law_without(f, "master_strip"@, "master_limiter"@);
    json::law_without(f, "master_strip"@, "master_fx_chain"@);
    if let Some(l) = limiter {
        json::law_with(bare, "master_limiter"@, l, "master_strip"@);
        json::law_with(bare, "master_limiter"@, l, "master_limiter"@);
        json::law_with(bare, "master_limiter"@, l, "master_fx_chain"@);
    }
    json::law_with(limited, "master_fx_chain"@, empty, "master_strip"@);
    json::law_with(limited, "master_fx_chain"@, empty, "master_limiter"@);
    json::lemma_key_place(limited, "master_fx_chain"@, 0);
    let v = json::get(g, "master_fx_chain"@)->0->List_0;
    assert(v == listed(song.at("master_fx_chain"@)));
    let found = lemma_chain_of_master(v, strip, next);
    let comp = native_migration::section(strip, "comp"@);
    let eq = native_migration::section(strip, "eq"@);
    let a = native_migration::installed(
        v,
        "BusComp"@,
        native_migration::section_params(comp),
        native_migration::section_bypassed(comp),
        0,
        next,
    );
    let b = native_migration::installed(
        a.devices,
        "ToneEq"@,
        native_migration::section_params(eq),
        native_migration::section_bypassed(eq),
        1,
        a.next,
    );
    let devices = StripDevices::Master { bus: a.id, tone: b.id };
    let list = Tree::List(b.devices);
    let h = json::with(g, "master_fx_chain"@, list);
    assert forall|key: Seq<char>| key != "master_fx_chain"@ implies #[trigger] json::get(h, key) == json::get(
        g,
        key,
    ) by {
        json::law_with(g, "master_fx_chain"@, list, key);
    }
    json::law_with(g, "master_fx_chain"@, list, "master_fx_chain"@);
    lemma_targets(h, "song_lanes"@, devices, bands);
    let k = native_migration::with_new_targets(h, "song_lanes"@, devices, bands);
    lemma_targets(k, "song_mod_routings"@, devices, bands);
    let master = native_migration::with_native_master(f, next, bands);
    let m = master.0;
    assert(m == native_migration::with_new_targets(k, "song_mod_routings"@, devices, bands));
    let now = native_migration::native_song(song, bands);
    assert forall|key: Seq<char>| key != "ids"@ implies #[trigger] now.at(key) == json::get(m, key) by {
        native_migration::lemma_device_count(m, master.1, key);
    }
    assert(json::get(m, "song_lanes"@) == json::get(k, "song_lanes"@));
    assert(json::get(h, "song_lanes"@) == song.at("song_lanes"@));
    assert(json::get(k, "song_mod_routings"@) == json::get(h, "song_mod_routings"@));
    assert(json::get(h, "song_mod_routings"@) == song.at("song_mod_routings"@));
    assert(json::get(m, "master_fx_chain"@) == json::get(k, "master_fx_chain"@));
    assert(json::get(m, "master_strip"@) == json::get(k, "master_strip"@));
    assert(json::get(m, "master_limiter"@) == json::get(k, "master_limiter"@));
    assert forall|key: Seq<char>|
        key != "tracks"@ && key != "master_strip"@ && key != "master_limiter"@ && key != "master_fx_chain"@ && key
            != "song_lanes"@ && key != "song_mod_routings"@ && key != "ids"@ implies #[trigger] now.at(key) == song.at(
        key,
    ) by {
        assert(json::get(m, key) == json::get(k, key));
        assert(json::get(k, key) == json::get(h, key));
        assert(json::get(h, key) == json::get(g, key));
        assert(json::get(g, key) == json::get(f, key));
    }
    assert(is_song_with_devices(now, song, bands, found.0, found.1, found.2, found.3));
}

// ---------------------------------------------------------------------------
// Ids
// ---------------------------------------------------------------------------

/// Whether a value has an id.
pub open spec fn is_id_of(t: Tree, id: u64) -> bool {
    t.at("id"@) == Some(Tree::Number(Number::Unsigned(id)))
}

/// Whether a device has an id, or something in it: a rack holds chains, and these hold
/// devices.
pub open spec fn holds_id(d: Tree, id: u64) -> bool
    decreases d,
{
    match d.at("Parallel"@) {
        Some(p) => is_id_of(p, id) || match p.at("chains"@) {
            Some(Tree::List(v)) => {
                proof {
                    json::lemma_at_is_smaller(d, "Parallel"@);
                    json::lemma_at_is_smaller(p, "chains"@);
                    assert(decreases_to!(Tree::List(v) => Tree::List(v)->List_0));
                }
                chains_hold_id(v, id)
            },
            _ => false,
        },
        None => match d.at("Native"@) {
            Some(n) => is_id_of(n, id),
            None => is_id_of(d, id),
        },
    }
}

/// Whether one of some chains has an id, or something in it.
pub open spec fn chains_hold_id(v: Seq<Tree>, id: u64) -> bool
    decreases v,
{
    if v.len() == 0 {
        false
    } else {
        proof {
            assert(decreases_to!(v => v.drop_last()));
            assert(decreases_to!(v => v[v.len() - 1]));
        }
        chains_hold_id(v.drop_last(), id) || chain_holds_id(v[v.len() - 1], id)
    }
}

/// Whether a chain has an id, or something in it.
pub open spec fn chain_holds_id(c: Tree, id: u64) -> bool
    decreases c,
{
    is_id_of(c, id) || match c.at("devices"@) {
        Some(Tree::List(v)) => {
            proof {
                json::lemma_at_is_smaller(c, "devices"@);
                assert(decreases_to!(Tree::List(v) => Tree::List(v)->List_0));
            }
            devices_hold_id(v, id)
        },
        _ => false,
    }
}

/// Whether one of some devices has an id, or something in it.
pub open spec fn devices_hold_id(v: Seq<Tree>, id: u64) -> bool
    decreases v,
{
    if v.len() == 0 {
        false
    } else {
        proof {
            assert(decreases_to!(v => v.drop_last()));
            assert(decreases_to!(v => v[v.len() - 1]));
        }
        devices_hold_id(v.drop_last(), id) || holds_id(v[v.len() - 1], id)
    }
}

proof fn lemma_device_max(d: Tree, id: u64)
    requires
        holds_id(d, id),
    ensures
        id <= native_migration::device_max(d),
    decreases d,
{
    if let Some(p) = d.at("Parallel"@) {
        if let Some(Tree::List(v)) = p.at("chains"@) {
            json::lemma_at_is_smaller(d, "Parallel"@);
            json::lemma_at_is_smaller(p, "chains"@);
            assert(decreases_to!(Tree::List(v) => Tree::List(v)->List_0));
            if chains_hold_id(v, id) {
                lemma_chains_max(v, id);
            }
        }
    }
}

proof fn lemma_chains_max(v: Seq<Tree>, id: u64)
    requires
        chains_hold_id(v, id),
    ensures
        id <= native_migration::chains_max(v),
    decreases v,
{
    assert(decreases_to!(v => v.drop_last()));
    assert(decreases_to!(v => v[v.len() - 1]));
    if chains_hold_id(v.drop_last(), id) {
        lemma_chains_max(v.drop_last(), id);
    } else {
        lemma_chain_max(v[v.len() - 1], id);
    }
}

proof fn lemma_chain_max(c: Tree, id: u64)
    requires
        chain_holds_id(c, id),
    ensures
        id <= native_migration::chain_max(c),
    decreases c,
{
    if let Some(Tree::List(v)) = c.at("devices"@) {
        json::lemma_at_is_smaller(c, "devices"@);
        assert(decreases_to!(Tree::List(v) => Tree::List(v)->List_0));
        if devices_hold_id(v, id) {
            lemma_devices_max(v, id);
        }
    }
}

proof fn lemma_devices_max(v: Seq<Tree>, id: u64)
    requires
        devices_hold_id(v, id),
    ensures
        id <= native_migration::devices_max(v),
    decreases v,
{
    assert(decreases_to!(v => v.drop_last()));
    assert(decreases_to!(v => v[v.len() - 1]));
    if devices_hold_id(v.drop_last(), id) {
        lemma_devices_max(v.drop_last(), id);
    } else {
        lemma_device_max(v[v.len() - 1], id);
    }
}

proof fn lemma_tracks_max(v: Seq<Tree>, id: u64, i: int)
    requires
        0 <= i < v.len(),
        devices_hold_id(listed(v[i].at("devices"@)), id),
    ensures
        id <= native_migration::tracks_node_max(v),
    decreases v.len(),
{
    if i == v.len() - 1 {
        lemma_devices_max(listed(v[i].at("devices"@)), id);
        assert(listed(v[i].at("devices"@)) == device_chains::list_at(v.last().at("devices"@)));
    } else {
        lemma_tracks_max(v.drop_last(), id, i);
    }
}

/// Whether a device of a song has an id, or something in it.
pub open spec fn song_holds_id(song: Tree, id: u64) -> bool {
    ||| devices_hold_id(listed(song.at("master_fx_chain"@)), id)
    ||| exists|i: int|
        0 <= i < listed(song.at("tracks"@)).len() && devices_hold_id(
            listed((#[trigger] listed(song.at("tracks"@))[i]).at("devices"@)),
            id,
        )
}

/// The ids that are handed out lie above every id that a device of the song has, however
/// deep, and not below what the song counts.
pub proof fn law_new_ids_are_above_all_others(song: Tree, id: u64)
    requires
        song is Object,
        song_holds_id(song, id),
        id < u64::MAX,
    ensures
        id < native_migration::first_device_id(song->Object_0),
        native_migration::first_device_id(song->Object_0) > 0,
        forall|n: u64|
            song.at("ids"@) is Some && song.at("ids"@)->0.at("next_device_id"@) == Some(
                Tree::Number(#[trigger] as_number(n)),
            ) ==> n <= native_migration::first_device_id(song->Object_0),
{
    let f = song->Object_0;
    let master = listed(song.at("master_fx_chain"@));
    let tracks = listed(song.at("tracks"@));
    if devices_hold_id(master, id) {
        lemma_devices_max(master, id);
        assert(master == device_chains::list_at(json::get(f, "master_fx_chain"@)));
    } else {
        let i = choose|i: int|
            0 <= i < listed(song.at("tracks"@)).len() && devices_hold_id(
                listed((#[trigger] listed(song.at("tracks"@))[i]).at("devices"@)),
                id,
            );
        lemma_tracks_max(tracks, id, i);
        assert(tracks == device_chains::list_at(json::get(f, "tracks"@)));
    }
    assert(id <= native_migration::song_node_max(f));
}

/// A number as a document writes it.
pub open spec fn as_number(n: u64) -> Number {
    Number::Unsigned(n)
}

/// What a song counts is at least the first id that was handed out, and its other counters
/// stay as they are.
pub proof fn law_the_count_is_kept(song: Tree, bands: Seq<Seq<char>>)
    requires
        song is Object,
        has_old_parts(song),
        song.at("ids"@) is Some ==> song.at("ids"@)->0 is Object,
    ensures
        ({
            let now = native_migration::native_song(song, bands);
            &&& now.at("ids"@) is Some
            &&& exists|n: u64|
                now.at("ids"@)->0.at("next_device_id"@) == Some(Tree::Number(#[trigger] as_number(n))) && n
                    >= native_migration::first_device_id(song->Object_0)
            &&& song.at("ids"@) is Some ==> forall|key: Seq<char>|
                key != "next_device_id"@ ==> #[trigger] now.at("ids"@)->0.at(key) == song.at("ids"@)->0.at(key)
        }),
{
    lemma_song_members(song, bands);
    native_migration::lemma_song_keys();
    let f = song->Object_0;
    let next = native_migration::first_device_id(f);
    let tracks = native_migration::with_native_tracks(f, next);
    if let Some(Tree::List(v)) = json::get(f, "tracks"@) {
        lemma_tracks_next(v, next);
        json::law_with(f, "tracks"@, Tree::List(native_migration::native_tracks(v, next).0), "ids"@);
    }
    let master = native_migration::with_native_master(tracks.0, tracks.1, bands);
    lemma_master_keeps(tracks.0, tracks.1, bands);
    lemma_master_next(tracks.0, tracks.1, bands);
    assert(json::get(master.0, "ids"@) == song.at("ids"@));
    let n = master.1;
    let number = Tree::Number(as_number(n));
    match json::get(master.0, "ids"@) {
        None => {
            json::law_with(master.0, "ids"@, native_migration::single("next_device_id"@, number), "ids"@);
            lemma_single("next_device_id"@, number, "next_device_id"@);
        },
        Some(t) => {
            let m = t->Object_0;
            let counted = Tree::Object(json::with(m, "next_device_id"@, number));
            json::law_with(master.0, "ids"@, counted, "ids"@);
            json::law_with(m, "next_device_id"@, number, "next_device_id"@);
            let now = native_migration::native_song(song, bands);
            assert(now.at("ids"@) == Some(counted));
            assert forall|key: Seq<char>| key != "next_device_id"@ implies #[trigger] now.at("ids"@)->0.at(key)
                == song.at("ids"@)->0.at(key) by {
                json::law_with(m, "next_device_id"@, number, key);
            }
        },
    }
    assert(native_migration::native_song(song, bands).at("ids"@)->0.at("next_device_id"@) == Some(
        Tree::Number(as_number(n)),
    ));
}

proof fn lemma_master_next(f: Seq<Field>, next: u64, bands: Seq<Seq<char>>)
    requires
        next > 0,
    ensures
        native_migration::with_native_master(f, next, bands).1 >= next,
{
    let strip = json::get(f, "master_strip"@);
    let bare = json::without(f, "master_strip"@);
    let limited = match native_migration::section(strip, "limiter"@) {
        Some(l) => json::with(bare, "master_limiter"@, l),
        None => bare,
    };
    let g = native_migration::with_list(limited, "master_fx_chain"@);
    if let Some(Tree::List(v)) = json::get(g, "master_fx_chain"@) {
        lemma_chain_of_master(v, strip, next);
    }
}

} // verus!
