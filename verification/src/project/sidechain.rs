//! Side chains of the old form.
//!
//! A plugin once listed the tracks that its side chain reads as
//! `sidechain_sources`. Now it lists routes as `aux_inputs`; the old list reads
//! after the fader.

use crate::json;
use crate::json::{has_member, put_member, take_member, Field, Json, Member, Number, Tree};
use vstd::prelude::*;
use vstd::string::*;

verus! {

/// The tracks of an old list: each element is a track id or null.
pub open spec fn source_of(t: Tree) -> Option<Option<u32>> {
    match t {
        Tree::Null => Some(None),
        Tree::Number(Number::Unsigned(n)) => if n <= u32::MAX {
            Some(Some(n as u32))
        } else {
            None
        },
        _ => None,
    }
}

/// Whether a value is an old list.
pub open spec fn is_source_list(t: Tree) -> bool {
    match t {
        Tree::List(v) => forall|i: int| 0 <= i < v.len() ==> source_of(#[trigger] v[i]) is Some,
        _ => false,
    }
}

/// A route that reads track `id` after its fader, as a document.
pub open spec fn post_fader_tree(id: u32) -> Tree {
    let source = Tree::Object(seq![Field { key: "Track"@, value: Tree::Number(Number::Unsigned(id as u64)) }]);
    let tap = Tree::Object(
        seq![
            Field { key: "source"@, value: source },
            Field { key: "tap_point"@, value: Tree::Text("PostFader"@) },
        ],
    );
    Tree::Object(seq![Field { key: "tap"@, value: tap }])
}

/// An element of an old list as a route.
pub open spec fn route_tree(t: Tree) -> Tree {
    match source_of(t) {
        Some(Some(id)) => post_fader_tree(id),
        _ => Tree::Null,
    }
}

/// The members of an object in the present form: the old list is gone, and
/// became the routes if there were none.
pub open spec fn lifted_members(f: Seq<Field>) -> Seq<Field> {
    match json::get(f, "sidechain_sources"@) {
        None => f,
        Some(old) => {
            let rest = json::without(f, "sidechain_sources"@);
            if json::has_key(rest, "aux_inputs"@) || !is_source_list(old) || old->List_0.len() == 0 {
                rest
            } else {
                json::with(rest, "aux_inputs"@, Tree::List(old->List_0.map_values(|t: Tree| route_tree(t))))
            }
        },
    }
}

/// A document in which every object, however deep, is in the present form.
pub open spec fn lifted(t: Tree) -> Tree
    decreases t,
{
    match t {
        Tree::Object(f) => Tree::Object(lifted_members(lifted_fields(f))),
        Tree::List(v) => Tree::List(lifted_list(v)),
        _ => t,
    }
}

/// Members with their values in the present form.
pub open spec fn lifted_fields(f: Seq<Field>) -> Seq<Field>
    decreases f,
{
    Seq::new(
        f.len(),
        |i: int|
            if 0 <= i < f.len() {
                Field { key: f[i].key, value: lifted(f[i].value) }
            } else {
                f[i]
            },
    )
}

/// Elements in the present form.
pub open spec fn lifted_list(v: Seq<Tree>) -> Seq<Tree>
    decreases v,
{
    Seq::new(
        v.len(),
        |i: int|
            if 0 <= i < v.len() {
                lifted(v[i])
            } else {
                v[i]
            },
    )
}

/// A route that reads track `id` after its fader, as a document.
fn post_fader_json(id: u32) -> (r: Json)
    ensures
        r@ == post_fader_tree(id),
{
    let source = Json::single("Track", Json::unsigned(id as u64));
    let mut tap: Vec<Member> = Vec::new();
    tap.push(Member { key: "source".to_owned(), value: source });
    tap.push(Member { key: "tap_point".to_owned(), value: Json::text("PostFader") });
    assert(json::fields(tap@) =~= seq![
        Field { key: "source"@, value: source@ },
        Field { key: "tap_point"@, value: Tree::Text("PostFader"@) },
    ]);
    Json::single("tap", Json::Object(tap))
}

/// The routes that an old list stands for; none if it is not one.
fn routes_of(old: &Json) -> (r: Option<Vec<Json>>)
    ensures
        match r {
            Some(v) => is_source_list(old@) && json::trees(v@) == old@->List_0.map_values(|t: Tree| route_tree(t)),
            None => !is_source_list(old@),
        },
{
    match old {
        Json::List(v) => {
            let ghost start = json::trees(v@);
            let mut r: Vec<Json> = Vec::new();
            let mut i: usize = 0;
            while i < v.len()
                invariant
                    start == json::trees(v@),
                    old@ == Tree::List(start),
                    i <= v@.len(),
                    r@.len() == i,
                    forall|k: int| 0 <= k < i ==> source_of(#[trigger] start[k]) is Some,
                    forall|k: int| 0 <= k < i ==> json::tree(#[trigger] r@[k]) == route_tree(start[k]),
                decreases v@.len() - i,
            {
                assert(start[i as int] == json::tree(v@[i as int]));
                match &v[i] {
                    Json::Null => {
                        r.push(Json::Null);
                    },
                    Json::Number(Number::Unsigned(n)) => {
                        if *n > u32::MAX as u64 {
                            return None;
                        }
                        r.push(post_fader_json(*n as u32));
                    },
                    _ => {
                        return None;
                    },
                }
                i += 1;
            }
            assert(json::trees(r@) =~= start.map_values(|t: Tree| route_tree(t)));
            Some(r)
        },
        _ => None,
    }
}

fn lift_members(v: &mut Vec<Member>)
    ensures
        json::fields(final(v)@) == lifted_members(json::fields(old(v)@)),
{
    let old_list = match take_member(v, "sidechain_sources") {
        Some(old_list) => old_list,
        None => {
            proof {
                json::law_without(json::fields(old(v)@), "sidechain_sources"@, "sidechain_sources"@);
            }
            return;
        },
    };
    if !has_member(v, "aux_inputs") {
        if let Some(routes) = routes_of(&old_list) {
            assert(json::trees(routes@).len() == routes@.len());
            if routes.len() > 0 {
                put_member(v, "aux_inputs", Json::List(routes));
            }
        }
    }
}

fn lift_fields(v: &mut Vec<Member>)
    ensures
        json::fields(final(v)@) == lifted_fields(json::fields(old(v)@)),
    decreases old(v)@,
{
    let ghost start = v@;
    let ghost f = json::fields(v@);
    let mut i: usize = 0;
    while i < v.len()
        invariant
            start == old(v)@,
            f == json::fields(start),
            v@.len() == start.len(),
            i <= v@.len(),
            forall|k: int| i <= k < start.len() ==> #[trigger] v@[k] == start[k],
            forall|k: int|
                0 <= k < i ==> json::field_model(#[trigger] v@[k]) == (Field { key: f[k].key, value: lifted(f[k].value) }),
        decreases start.len() - i,
    {
        proof {
            assert(v@[i as int] == start[i as int]);
            assert(decreases_to!(start => start[i as int]));
            assert(decreases_to!(start[i as int] => start[i as int].value));
            assert(f[i as int] == json::field_model(start[i as int]));
        }
        migrate_legacy_sidechain_to_aux(&mut v[i].value);
        i += 1;
    }
    assert(json::fields(v@) =~= lifted_fields(f));
}

fn lift_list(v: &mut Vec<Json>)
    ensures
        json::trees(final(v)@) == lifted_list(json::trees(old(v)@)),
    decreases old(v)@,
{
    let ghost start = v@;
    let ghost f = json::trees(v@);
    let mut i: usize = 0;
    while i < v.len()
        invariant
            start == old(v)@,
            f == json::trees(start),
            v@.len() == start.len(),
            i <= v@.len(),
            forall|k: int| i <= k < start.len() ==> #[trigger] v@[k] == start[k],
            forall|k: int| 0 <= k < i ==> json::tree(#[trigger] v@[k]) == lifted(f[k]),
        decreases start.len() - i,
    {
        proof {
            assert(v@[i as int] == start[i as int]);
            assert(decreases_to!(start => start[i as int]));
            assert(f[i as int] == json::tree(start[i as int]));
        }
        migrate_legacy_sidechain_to_aux(&mut v[i]);
        i += 1;
    }
    assert(json::trees(v@) =~= lifted_list(f));
}

/// Turns every old list of side chains into routes, wherever in the document a
/// plugin stands. A plugin that has routes already only loses its old list.
pub fn migrate_legacy_sidechain_to_aux(value: &mut Json)
    ensures
        final(value)@ == lifted(old(value)@),
    decreases *old(value),
{
    match value {
        Json::Object(v) => {
            proof {
                assert(decreases_to!(*old(value) => old(value)->Object_0));
                assert(decreases_to!(old(value)->Object_0 => v@));
            }
            lift_fields(v);
            lift_members(v);
        },
        Json::List(v) => {
            proof {
                assert(decreases_to!(*old(value) => old(value)->List_0));
                assert(decreases_to!(old(value)->List_0 => v@));
            }
            lift_list(v);
        },
        _ => {},
    }
}

/// Whether no object of a document, however deep, has an old list.
pub open spec fn in_present_form(t: Tree) -> bool
    decreases t,
{
    match t {
        Tree::Object(f) => !json::has_key(f, "sidechain_sources"@) && forall|i: int|
            0 <= i < f.len() ==> in_present_form((#[trigger] f[i]).value),
        Tree::List(v) => forall|i: int| 0 <= i < v.len() ==> in_present_form(#[trigger] v[i]),
        _ => true,
    }
}

/// The lifted document has no old list left, a document without any stays as it
/// is, and so lifting twice is lifting once.
pub proof fn law_lifting_is_idempotent(t: Tree)
    ensures
        in_present_form(lifted(t)),
        in_present_form(t) ==> lifted(t) == t,
        lifted(lifted(t)) == lifted(t),
{
    lemma_lifted_is_present(t);
    lemma_present_stays(lifted(t));
    if in_present_form(t) {
        lemma_present_stays(t);
    }
}

proof fn lemma_present_stays(t: Tree)
    requires
        in_present_form(t),
    ensures
        lifted(t) == t,
    decreases t,
{
    match t {
        Tree::Object(f) => {
            assert forall|i: int| 0 <= i < f.len() implies #[trigger] lifted_fields(f)[i] == f[i] by {
                assert(decreases_to!(t => f));
                assert(decreases_to!(f => f[i]));
                assert(decreases_to!(f[i] => f[i].value));
                lemma_present_stays(f[i].value);
            }
            assert(lifted_fields(f) =~= f);
        },
        Tree::List(v) => {
            assert forall|i: int| 0 <= i < v.len() implies #[trigger] lifted_list(v)[i] == v[i] by {
                assert(decreases_to!(t => v));
                assert(decreases_to!(v => v[i]));
                lemma_present_stays(v[i]);
            }
            assert(lifted_list(v) =~= v);
        },
        _ => {},
    }
}

proof fn lemma_route_is_present(t: Tree)
    ensures
        in_present_form(route_tree(t)),
{
    if let Some(Some(id)) = source_of(t) {
        reveal_strlit("sidechain_sources");
        reveal_strlit("Track");
        reveal_strlit("source");
        reveal_strlit("tap_point");
        reveal_strlit("tap");
        let number = Tree::Number(Number::Unsigned(id as u64));
        let inner = seq![Field { key: "Track"@, value: number }];
        let place = Tree::Text("PostFader"@);
        let middle = seq![
            Field { key: "source"@, value: Tree::Object(inner) },
            Field { key: "tap_point"@, value: place },
        ];
        let outer = seq![Field { key: "tap"@, value: Tree::Object(middle) }];
        assert("sidechain_sources"@.len() == 17);
        json::lemma_key_place(inner, "sidechain_sources"@, 0);
        json::lemma_key_place(middle, "sidechain_sources"@, 0);
        json::lemma_key_place(outer, "sidechain_sources"@, 0);
        assert(in_present_form(number));
        assert(in_present_form(place));
        assert(in_present_form(Tree::Object(inner)));
        assert(in_present_form(Tree::Object(middle)));
        assert(in_present_form(Tree::Object(outer)));
    }
}

proof fn lemma_lifted_is_present(t: Tree)
    ensures
        in_present_form(lifted(t)),
    decreases t,
{
    match t {
        Tree::Object(f) => {
            let g = lifted_fields(f);
            let key = "sidechain_sources"@;
            let p = |x: Field| in_present_form(x.value);
            assert forall|i: int| 0 <= i < g.len() implies p(#[trigger] g[i]) by {
                assert(decreases_to!(t => f));
                assert(decreases_to!(f => f[i]));
                assert(decreases_to!(f[i] => f[i].value));
                lemma_lifted_is_present(f[i].value);
            }
            let rest = json::without(g, key);
            json::lemma_without_keeps(g, key, p);
            json::law_without(g, key, key);
            let all = lifted_members(g);
            if let Some(old) = json::get(g, key) {
                if !(json::has_key(rest, "aux_inputs"@) || !is_source_list(old) || old->List_0.len() == 0) {
                    let routes = old->List_0.map_values(|t: Tree| route_tree(t));
                    assert forall|i: int| 0 <= i < routes.len() implies in_present_form(#[trigger] routes[i]) by {
                        lemma_route_is_present(old->List_0[i]);
                    }
                    assert(in_present_form(Tree::List(routes)));
                    reveal_strlit("sidechain_sources");
                    reveal_strlit("aux_inputs");
                    assert("aux_inputs"@.len() == 10);
                    json::law_with(rest, "aux_inputs"@, Tree::List(routes), key);
                    assert(all == rest.push(Field { key: "aux_inputs"@, value: Tree::List(routes) }));
                    assert forall|i: int| 0 <= i < all.len() implies in_present_form((#[trigger] all[i]).value) by {
                        if i < rest.len() {
                            assert(p(rest[i]));
                        }
                    }
                } else {
                    assert forall|i: int| 0 <= i < all.len() implies in_present_form((#[trigger] all[i]).value) by {
                        assert(p(rest[i]));
                    }
                }
            } else {
                assert forall|i: int| 0 <= i < all.len() implies in_present_form((#[trigger] all[i]).value) by {
                    assert(p(g[i]));
                }
            }
            assert(!json::has_key(all, key));
        },
        Tree::List(v) => {
            let w = lifted_list(v);
            assert forall|i: int| 0 <= i < w.len() implies in_present_form(#[trigger] w[i]) by {
                assert(decreases_to!(t => v));
                assert(decreases_to!(v => v[i]));
                lemma_lifted_is_present(v[i]);
            }
        },
        _ => {},
    }
}

} // verus!
