//! Contents in a store of their own.
//!
//! A clip once carried its `notes` and its `name`. Now it names a content by
//! `content_id`; the notes are in `clip_contents` and the name in
//! `clip_content_names`, under that id. Clips that share a content share its
//! name: the first one wins.

use crate::json;
use crate::json::{has_member, member, member_mut, put_member, take_member, Field, Json, Member, Number, Tree};
use crate::project::device_chains;
use crate::text;
use crate::text::decimal_text;
use vstd::prelude::*;
use vstd::string::*;

verus! {

/// The store while clips are moved into it: the next free id, the contents and
/// the names.
#[verifier::ext_equal]
pub struct Store {
    pub counter: u64,
    pub contents: Seq<Field>,
    pub names: Seq<Field>,
}

/// The name of a clip, if it has one that is not empty.
pub open spec fn clip_name(f: Seq<Field>) -> Option<Seq<char>> {
    match json::get(f, "name"@) {
        Some(Tree::Text(s)) => if s.len() > 0 {
            Some(s)
        } else {
            None
        },
        _ => None,
    }
}

/// The notes of a clip, if it has any.
pub open spec fn clip_notes(f: Seq<Field>) -> Option<Seq<Tree>> {
    match json::get(f, "notes"@) {
        Some(Tree::List(v)) => if v.len() > 0 {
            Some(v)
        } else {
            None
        },
        _ => None,
    }
}

/// The content id of a clip; zero if it has none.
pub open spec fn content_id(clip: Tree) -> u64 {
    match clip.at("content_id"@) {
        Some(t) => match t.unsigned() {
            Some(n) => n,
            None => 0,
        },
        None => 0,
    }
}

/// The members with `key` set, unless it is there already.
pub open spec fn keep(f: Seq<Field>, key: Seq<char>, value: Tree) -> Seq<Field> {
    if json::has_key(f, key) {
        f
    } else {
        json::with(f, key, value)
    }
}

/// A clip without its name and notes.
pub open spec fn bare(f: Seq<Field>) -> Seq<Field> {
    json::without(json::without(f, "name"@), "notes"@)
}

/// The next id. Ids wrap around at 64 bits.
pub open spec fn next_id(n: u64) -> u64 {
    ((n + 1) % 0x1_0000_0000_0000_0000) as u64
}

/// A clip moved into the store: what is left of it, and the store. `noted`
/// tells whether it may carry notes. A clip with neither name nor notes needs
/// no content; one without an id gets the next free one.
pub open spec fn clip_drained(clip: Tree, noted: bool, st: Store) -> (Tree, Store) {
    match clip {
        Tree::Object(f) => {
            let name = clip_name(f);
            let notes = if noted {
                clip_notes(f)
            } else {
                None
            };
            let g = bare(f);
            if name is None && notes is None {
                (Tree::Object(g), st)
            } else {
                let fresh = content_id(Tree::Object(g)) == 0;
                let id = if fresh {
                    st.counter
                } else {
                    content_id(Tree::Object(g))
                };
                let key = text::decimal(id as nat);
                (
                    Tree::Object(
                        if fresh {
                            json::with(g, "content_id"@, Tree::Number(Number::Unsigned(id)))
                        } else {
                            g
                        },
                    ),
                    Store {
                        counter: if fresh {
                            next_id(st.counter)
                        } else {
                            st.counter
                        },
                        names: match name {
                            Some(s) => keep(st.names, key, Tree::Text(s)),
                            None => st.names,
                        },
                        contents: match notes {
                            Some(v) => keep(
                                st.contents,
                                key,
                                Tree::Object(seq![Field { key: "notes"@, value: Tree::List(v) }]),
                            ),
                            None => st.contents,
                        },
                    },
                )
            }
        },
        _ => (clip, st),
    }
}

/// Clips moved into the store, in order.
pub open spec fn clips_drained(v: Seq<Tree>, noted: bool, st: Store) -> (Seq<Tree>, Store)
    decreases v.len(),
{
    if v.len() == 0 {
        (v, st)
    } else {
        let before = clips_drained(v.drop_last(), noted, st);
        let clip = clip_drained(v.last(), noted, before.1);
        (before.0.push(clip.0), clip.1)
    }
}

/// What has clips, with its clips moved into the store.
pub open spec fn owner_drained(t: Tree, noted: bool, st: Store) -> (Tree, Store) {
    match t {
        Tree::Object(f) => match json::get(f, "clips"@) {
            Some(Tree::List(v)) => {
                let r = clips_drained(v, noted, st);
                (Tree::Object(json::with(f, "clips"@, Tree::List(r.0))), r.1)
            },
            _ => (t, st),
        },
        _ => (t, st),
    }
}

/// Lanes with their clips moved into the store, in order. Only names move.
pub open spec fn lanes_drained(v: Seq<Tree>, st: Store) -> (Seq<Tree>, Store)
    decreases v.len(),
{
    if v.len() == 0 {
        (v, st)
    } else {
        let before = lanes_drained(v.drop_last(), st);
        let lane = owner_drained(v.last(), false, before.1);
        (before.0.push(lane.0), lane.1)
    }
}

/// A member that lists lanes, with their clips moved into the store.
pub open spec fn lanes_at_drained(f: Seq<Field>, key: Seq<char>, st: Store) -> (Seq<Field>, Store) {
    match json::get(f, key) {
        Some(Tree::List(v)) => {
            let r = lanes_drained(v, st);
            (json::with(f, key, Tree::List(r.0)), r.1)
        },
        _ => (f, st),
    }
}

/// A track with the clips of its own and of its lanes moved into the store.
pub open spec fn track_drained(t: Tree, st: Store) -> (Tree, Store) {
    match owner_drained(t, true, st) {
        (Tree::Object(f), st) => {
            let r = lanes_at_drained(f, "automation_lanes"@, st);
            (Tree::Object(r.0), r.1)
        },
        other => other,
    }
}

/// Tracks with their clips moved into the store, in order.
pub open spec fn tracks_drained(v: Seq<Tree>, st: Store) -> (Seq<Tree>, Store)
    decreases v.len(),
{
    if v.len() == 0 {
        (v, st)
    } else {
        let before = tracks_drained(v.drop_last(), st);
        let track = track_drained(v.last(), before.1);
        (before.0.push(track.0), track.1)
    }
}

/// The tracks of a song with their clips moved into the store.
pub open spec fn tracks_at_drained(f: Seq<Field>, st: Store) -> (Seq<Field>, Store) {
    match json::get(f, "tracks"@) {
        Some(Tree::List(v)) => {
            let r = tracks_drained(v, st);
            (json::with(f, "tracks"@, Tree::List(r.0)), r.1)
        },
        _ => (f, st),
    }
}

/// The larger of two ids.
pub open spec fn larger(a: u64, b: u64) -> u64 {
    if a < b {
        b
    } else {
        a
    }
}

/// The largest content id of clips.
pub open spec fn clips_max(v: Seq<Tree>) -> u64
    decreases v.len(),
{
    if v.len() == 0 {
        0
    } else {
        larger(clips_max(v.drop_last()), content_id(v.last()))
    }
}

/// The largest content id of what has clips.
pub open spec fn owner_max(t: Tree) -> u64 {
    clips_max(device_chains::list_at(t.at("clips"@)))
}

/// The largest content id of lanes.
pub open spec fn lanes_max(v: Seq<Tree>) -> u64
    decreases v.len(),
{
    if v.len() == 0 {
        0
    } else {
        larger(lanes_max(v.drop_last()), owner_max(v.last()))
    }
}

/// The largest content id of a track.
pub open spec fn track_max(t: Tree) -> u64 {
    larger(owner_max(t), lanes_max(device_chains::list_at(t.at("automation_lanes"@))))
}

/// The largest content id of tracks.
pub open spec fn tracks_max(v: Seq<Tree>) -> u64
    decreases v.len(),
{
    if v.len() == 0 {
        0
    } else {
        larger(tracks_max(v.drop_last()), track_max(v.last()))
    }
}

/// The largest content id of a song.
pub open spec fn song_max(f: Seq<Field>) -> u64 {
    larger(
        tracks_max(device_chains::list_at(json::get(f, "tracks"@))),
        lanes_max(device_chains::list_at(json::get(f, "song_lanes"@))),
    )
}

/// The first free content id: above what the song counts and above every id in
/// use. Never zero.
pub open spec fn first_free(f: Seq<Field>) -> u64 {
    let counted: u64 = match json::get(f, "next_content_id"@) {
        Some(t) => match t.unsigned() {
            Some(n) => n,
            None => 0,
        },
        None => 0,
    };
    let free = if counted <= song_max(f) {
        next_id(song_max(f))
    } else {
        counted
    };
    if free == 0 {
        1
    } else {
        free
    }
}

/// The members of a member, none if it is not an object.
pub open spec fn object_at(f: Seq<Field>, key: Seq<char>) -> Seq<Field> {
    match json::get(f, key) {
        Some(Tree::Object(m)) => m,
        _ => Seq::empty(),
    }
}

/// The members with `key` set to an object, or without it if that is empty.
pub open spec fn with_object(f: Seq<Field>, key: Seq<char>, m: Seq<Field>) -> Seq<Field> {
    if m.len() > 0 {
        json::with(f, key, Tree::Object(m))
    } else {
        json::without(f, key)
    }
}

/// The store that a song starts with.
pub open spec fn first_store(f: Seq<Field>) -> Store {
    Store {
        counter: first_free(f),
        contents: object_at(f, "clip_contents"@),
        names: object_at(f, "clip_content_names"@),
    }
}

/// The members of a song with a store written into it.
pub open spec fn with_store(f: Seq<Field>, st: Store) -> Seq<Field> {
    json::with(
        with_object(with_object(f, "clip_contents"@, st.contents), "clip_content_names"@, st.names),
        "next_content_id"@,
        Tree::Number(Number::Unsigned(st.counter)),
    )
}

/// The members of a song with its clips moved into its store.
pub open spec fn drained_members(f: Seq<Field>) -> Seq<Field> {
    let tracks = tracks_at_drained(f, first_store(f));
    let lanes = lanes_at_drained(tracks.0, "song_lanes"@, tracks.1);
    with_store(lanes.0, lanes.1)
}

/// A song with its clips moved into its store.
pub open spec fn drained_song(song: Tree) -> Tree {
    match song {
        Tree::Object(f) => Tree::Object(drained_members(f)),
        _ => song,
    }
}

// ---------------------------------------------------------------------------
// Moving
// ---------------------------------------------------------------------------

/// The store while clips are moved into it.
struct ContentStore {
    counter: u64,
    contents: Vec<Member>,
    names: Vec<Member>,
}

impl View for ContentStore {
    type V = Store;

    closed spec fn view(&self) -> Store {
        Store { counter: self.counter, contents: json::fields(self.contents@), names: json::fields(self.names@) }
    }
}

/// Sets `key`, unless it is there already.
fn keep_member(v: &mut Vec<Member>, key: &str, value: Json)
    ensures
        json::fields(final(v)@) == keep(json::fields(old(v)@), key@, value@),
{
    if !has_member(v, key) {
        put_member(v, key, value);
    }
}

/// The content id of a clip; zero if it has none.
fn read_content_id(clip: &Json) -> (r: u64)
    ensures
        r == content_id(clip@),
{
    match clip.get("content_id") {
        Some(t) => match t.as_u64() {
            Some(n) => n,
            None => 0,
        },
        None => 0,
    }
}

fn drain_clip(clip: &mut Json, noted: bool, st: &mut ContentStore)
    ensures
        (final(clip)@, final(st)@) == clip_drained(old(clip)@, noted, old(st)@),
{
    let ghost start = st@;
    proof {
        reveal_strlit("name");
        reveal_strlit("notes");
        assert("name"@.len() == 4 && "notes"@.len() == 5);
    }
    match clip {
        Json::Object(v) => {
            let ghost f = json::fields(v@);
            proof {
                json::law_without(f, "name"@, "notes"@);
            }
            let name = match take_member(v, "name") {
                Some(Json::Text(s)) => if s.as_str().is_empty() {
                    None
                } else {
                    Some(s)
                },
                _ => None,
            };
            let notes = match take_member(v, "notes") {
                Some(Json::List(l)) => {
                    assert(json::trees(l@).len() == l@.len());
                    if noted && l.len() > 0 {
                        Some(l)
                    } else {
                        None
                    }
                },
                _ => None,
            };
            if name.is_some() || notes.is_some() {
                let found: u64 = match member(v, "content_id") {
                    Some(t) => match t.as_u64() {
                        Some(n) => n,
                        None => 0,
                    },
                    None => 0,
                };
                let id: u64 = if found == 0 {
                    let id: u64 = st.counter;
                    st.counter = st.counter.wrapping_add(1);
                    put_member(v, "content_id", Json::unsigned(id));
                    id
                } else {
                    found
                };
                let key = decimal_text(id);
                if let Some(s) = name {
                    keep_member(&mut st.names, key.as_str(), Json::Text(s));
                }
                if let Some(l) = notes {
                    let mut content: Vec<Member> = Vec::new();
                    content.push(Member { key: "notes".to_owned(), value: Json::List(l) });
                    assert(json::fields(content@) =~= seq![
                        Field { key: "notes"@, value: Tree::List(json::trees(l@)) },
                    ]);
                    keep_member(&mut st.contents, key.as_str(), Json::Object(content));
                }
            }
        },
        _ => {},
    }
}

fn drain_clips(v: &mut Vec<Json>, noted: bool, st: &mut ContentStore)
    ensures
        (json::trees(final(v)@), final(st)@) == clips_drained(json::trees(old(v)@), noted, old(st)@),
{
    let ghost start = json::trees(v@);
    let ghost first = st@;
    let mut i: usize = 0;
    assert(start.take(0) =~= Seq::<Tree>::empty());
    assert(json::trees(v@).take(0) =~= Seq::<Tree>::empty());
    while i < v.len()
        invariant
            v@.len() == start.len(),
            i <= v@.len(),
            json::trees(v@).skip(i as int) == start.skip(i as int),
            (json::trees(v@).take(i as int), st@) == clips_drained(start.take(i as int), noted, first),
        decreases v@.len() - i,
    {
        let ghost before = json::trees(v@);
        proof {
            assert(before[i as int] == before.skip(i as int)[0]);
            assert(before[i as int] == start[i as int]);
            assert(before[i as int] == json::tree(v@[i as int]));
            assert(start.take(i + 1).drop_last() =~= start.take(i as int));
        }
        drain_clip(&mut v[i], noted, st);
        proof {
            let after = json::trees(v@);
            assert(after =~= before.update(i as int, json::tree(v@[i as int])));
            assert(after.take(i + 1) =~= before.take(i as int).push(json::tree(v@[i as int])));
            assert(after.skip(i + 1) =~= before.skip(i as int).drop_first());
            assert(start.skip(i + 1) =~= start.skip(i as int).drop_first());
        }
        i += 1;
    }
    proof {
        assert(start.take(i as int) =~= start);
        assert(json::trees(v@).take(i as int) =~= json::trees(v@));
    }
}

fn drain_owner(t: &mut Json, noted: bool, st: &mut ContentStore)
    ensures
        (final(t)@, final(st)@) == owner_drained(old(t)@, noted, old(st)@),
{
    match t {
        Json::Object(v) => {
            let ghost f = json::fields(v@);
            if let Some(clips) = member_mut(v, "clips") {
                match clips {
                    Json::List(l) => drain_clips(l, noted, st),
                    _ => {},
                }
            }
            proof {
                if let Some(t) = json::get(f, "clips"@) {
                    json::law_with(f, "clips"@, t, "clips"@);
                }
            }
        },
        _ => {},
    }
}

fn drain_lanes(v: &mut Vec<Json>, st: &mut ContentStore)
    ensures
        (json::trees(final(v)@), final(st)@) == lanes_drained(json::trees(old(v)@), old(st)@),
{
    let ghost start = json::trees(v@);
    let ghost first = st@;
    let mut i: usize = 0;
    assert(start.take(0) =~= Seq::<Tree>::empty());
    assert(json::trees(v@).take(0) =~= Seq::<Tree>::empty());
    while i < v.len()
        invariant
            v@.len() == start.len(),
            i <= v@.len(),
            json::trees(v@).skip(i as int) == start.skip(i as int),
            (json::trees(v@).take(i as int), st@) == lanes_drained(start.take(i as int), first),
        decreases v@.len() - i,
    {
        let ghost before = json::trees(v@);
        proof {
            assert(before[i as int] == before.skip(i as int)[0]);
            assert(before[i as int] == start[i as int]);
            assert(before[i as int] == json::tree(v@[i as int]));
            assert(start.take(i + 1).drop_last() =~= start.take(i as int));
        }
        drain_owner(&mut v[i], false, st);
        proof {
            let after = json::trees(v@);
            assert(after =~= before.update(i as int, json::tree(v@[i as int])));
            assert(after.take(i + 1) =~= before.take(i as int).push(json::tree(v@[i as int])));
            assert(after.skip(i + 1) =~= before.skip(i as int).drop_first());
            assert(start.skip(i + 1) =~= start.skip(i as int).drop_first());
        }
        i += 1;
    }
    proof {
        assert(start.take(i as int) =~= start);
        assert(json::trees(v@).take(i as int) =~= json::trees(v@));
    }
}

fn drain_lanes_at(v: &mut Vec<Member>, key: &str, st: &mut ContentStore)
    ensures
        (json::fields(final(v)@), final(st)@) == lanes_at_drained(json::fields(old(v)@), key@, old(st)@),
{
    let ghost f = json::fields(v@);
    if let Some(lanes) = member_mut(v, key) {
        match lanes {
            Json::List(l) => drain_lanes(l, st),
            _ => {},
        }
    }
    proof {
        if let Some(t) = json::get(f, key@) {
            json::law_with(f, key@, t, key@);
        }
    }
}

fn drain_track(t: &mut Json, st: &mut ContentStore)
    ensures
        (final(t)@, final(st)@) == track_drained(old(t)@, old(st)@),
{
    drain_owner(t, true, st);
    match t {
        Json::Object(v) => drain_lanes_at(v, "automation_lanes", st),
        _ => {},
    }
}

fn drain_tracks(v: &mut Vec<Json>, st: &mut ContentStore)
    ensures
        (json::trees(final(v)@), final(st)@) == tracks_drained(json::trees(old(v)@), old(st)@),
{
    let ghost start = json::trees(v@);
    let ghost first = st@;
    let mut i: usize = 0;
    assert(start.take(0) =~= Seq::<Tree>::empty());
    assert(json::trees(v@).take(0) =~= Seq::<Tree>::empty());
    while i < v.len()
        invariant
            v@.len() == start.len(),
            i <= v@.len(),
            json::trees(v@).skip(i as int) == start.skip(i as int),
            (json::trees(v@).take(i as int), st@) == tracks_drained(start.take(i as int), first),
        decreases v@.len() - i,
    {
        let ghost before = json::trees(v@);
        proof {
            assert(before[i as int] == before.skip(i as int)[0]);
            assert(before[i as int] == start[i as int]);
            assert(before[i as int] == json::tree(v@[i as int]));
            assert(start.take(i + 1).drop_last() =~= start.take(i as int));
        }
        drain_track(&mut v[i], st);
        proof {
            let after = json::trees(v@);
            assert(after =~= before.update(i as int, json::tree(v@[i as int])));
            assert(after.take(i + 1) =~= before.take(i as int).push(json::tree(v@[i as int])));
            assert(after.skip(i + 1) =~= before.skip(i as int).drop_first());
            assert(start.skip(i + 1) =~= start.skip(i as int).drop_first());
        }
        i += 1;
    }
    proof {
        assert(start.take(i as int) =~= start);
        assert(json::trees(v@).take(i as int) =~= json::trees(v@));
    }
}

fn drain_tracks_at(v: &mut Vec<Member>, st: &mut ContentStore)
    ensures
        (json::fields(final(v)@), final(st)@) == tracks_at_drained(json::fields(old(v)@), old(st)@),
{
    let ghost f = json::fields(v@);
    if let Some(tracks) = member_mut(v, "tracks") {
        match tracks {
            Json::List(l) => drain_tracks(l, st),
            _ => {},
        }
    }
    proof {
        if let Some(t) = json::get(f, "tracks"@) {
            json::law_with(f, "tracks"@, t, "tracks"@);
        }
    }
}

// ---------------------------------------------------------------------------
// Ids in use
// ---------------------------------------------------------------------------

/// The largest content id of what has clips.
fn scan_owner(t: &Json) -> (r: u64)
    ensures
        r == owner_max(t@),
{
    let mut max: u64 = 0;
    if let Some(Json::List(v)) = t.get("clips") {
        let ghost all = json::trees(v@);
        let mut i: usize = 0;
        assert(all.take(0) =~= Seq::<Tree>::empty());
        while i < v.len()
            invariant
                all == json::trees(v@),
                i <= v@.len(),
                max == clips_max(all.take(i as int)),
            decreases v@.len() - i,
        {
            proof {
                assert(all[i as int] == json::tree(v@[i as int]));
                assert(all.take(i + 1).drop_last() =~= all.take(i as int));
            }
            let id: u64 = read_content_id(&v[i]);
            if max < id {
                max = id;
            }
            i += 1;
        }
        assert(all.take(i as int) =~= all);
    }
    max
}

/// The largest content id of the lanes that a member lists.
fn scan_lanes(t: Option<&Json>) -> (r: u64)
    ensures
        r == lanes_max(
            device_chains::list_at(
                match t {
                    Some(j) => Some(j@),
                    None => None,
                },
            ),
        ),
{
    let mut max: u64 = 0;
    if let Some(Json::List(v)) = t {
        let ghost all = json::trees(v@);
        let mut i: usize = 0;
        assert(all.take(0) =~= Seq::<Tree>::empty());
        while i < v.len()
            invariant
                all == json::trees(v@),
                i <= v@.len(),
                max == lanes_max(all.take(i as int)),
            decreases v@.len() - i,
        {
            proof {
                assert(all[i as int] == json::tree(v@[i as int]));
                assert(all.take(i + 1).drop_last() =~= all.take(i as int));
            }
            let id: u64 = scan_owner(&v[i]);
            if max < id {
                max = id;
            }
            i += 1;
        }
        assert(all.take(i as int) =~= all);
    }
    max
}

/// The largest content id of the tracks that a member lists.
fn scan_tracks(t: Option<&Json>) -> (r: u64)
    ensures
        r == tracks_max(
            device_chains::list_at(
                match t {
                    Some(j) => Some(j@),
                    None => None,
                },
            ),
        ),
{
    let mut max: u64 = 0;
    if let Some(Json::List(v)) = t {
        let ghost all = json::trees(v@);
        let mut i: usize = 0;
        assert(all.take(0) =~= Seq::<Tree>::empty());
        while i < v.len()
            invariant
                all == json::trees(v@),
                i <= v@.len(),
                max == tracks_max(all.take(i as int)),
            decreases v@.len() - i,
        {
            proof {
                assert(all[i as int] == json::tree(v@[i as int]));
                assert(all.take(i + 1).drop_last() =~= all.take(i as int));
            }
            let own: u64 = scan_owner(&v[i]);
            let lanes: u64 = scan_lanes(v[i].get("automation_lanes"));
            let id: u64 = if own < lanes {
                lanes
            } else {
                own
            };
            if max < id {
                max = id;
            }
            i += 1;
        }
        assert(all.take(i as int) =~= all);
    }
    max
}

/// The first free content id, see [`first_free`].
fn find_first_free(v: &Vec<Member>) -> (r: u64)
    ensures
        r == first_free(json::fields(v@)),
{
    let tracks: u64 = scan_tracks(member(v, "tracks"));
    let lanes: u64 = scan_lanes(member(v, "song_lanes"));
    let max: u64 = if tracks < lanes {
        lanes
    } else {
        tracks
    };
    let counted: u64 = match member(v, "next_content_id") {
        Some(t) => match t.as_u64() {
            Some(n) => n,
            None => 0,
        },
        None => 0,
    };
    let free: u64 = if counted <= max {
        max.wrapping_add(1)
    } else {
        counted
    };
    if free == 0 {
        1
    } else {
        free
    }
}

/// A copy of the members of a member, none if it is not an object.
fn read_object(v: &Vec<Member>, key: &str) -> (r: Vec<Member>)
    ensures
        json::fields(r@) == object_at(json::fields(v@), key@),
{
    match member(v, key) {
        Some(Json::Object(m)) => json::copy_members(m),
        _ => {
            let r: Vec<Member> = Vec::new();
            assert(json::fields(r@) =~= Seq::<Field>::empty());
            r
        },
    }
}

/// Sets `key` to an object, or removes it if that is empty.
fn put_object(v: &mut Vec<Member>, key: &str, m: Vec<Member>)
    ensures
        json::fields(final(v)@) == with_object(json::fields(old(v)@), key@, json::fields(m@)),
{
    assert(json::fields(m@).len() == m@.len());
    if m.len() > 0 {
        put_member(v, key, Json::Object(m));
    } else {
        let _ = take_member(v, key);
    }
}

/// Moves the notes and names that the clips of a song carry into its store.
pub fn migrate_legacy_clip_content(song: &mut Json)
    ensures
        final(song)@ == drained_song(old(song)@),
{
    match song {
        Json::Object(v) => {
            let mut st = ContentStore {
                counter: find_first_free(v),
                contents: read_object(v, "clip_contents"),
                names: read_object(v, "clip_content_names"),
            };
            drain_tracks_at(v, &mut st);
            drain_lanes_at(v, "song_lanes", &mut st);
            let ContentStore { counter, contents, names } = st;
            put_object(v, "clip_contents", contents);
            put_object(v, "clip_content_names", names);
            put_member(v, "next_content_id", Json::unsigned(counter));
        },
        _ => {},
    }
}

// ---------------------------------------------------------------------------
// Laws
// ---------------------------------------------------------------------------

/// How many clips lanes have.
pub open spec fn lanes_count(v: Seq<Tree>) -> nat
    decreases v.len(),
{
    if v.len() == 0 {
        0
    } else {
        lanes_count(v.drop_last()) + device_chains::list_at(v.last().at("clips"@)).len()
    }
}

/// How many clips a track has, those of its lanes among them.
pub open spec fn track_count(t: Tree) -> nat {
    device_chains::list_at(t.at("clips"@)).len() + lanes_count(device_chains::list_at(t.at("automation_lanes"@)))
}

/// How many clips tracks have.
pub open spec fn tracks_count(v: Seq<Tree>) -> nat
    decreases v.len(),
{
    if v.len() == 0 {
        0
    } else {
        tracks_count(v.drop_last()) + track_count(v.last())
    }
}

/// How many clips a song has.
pub open spec fn song_count(f: Seq<Field>) -> nat {
    tracks_count(device_chains::list_at(json::get(f, "tracks"@))) + lanes_count(
        device_chains::list_at(json::get(f, "song_lanes"@)),
    )
}

/// Whether every clip of a song can have an id without the counter wrapping
/// around.
pub open spec fn ids_fit(f: Seq<Field>) -> bool {
    song_max(f) < u64::MAX && first_free(f) + song_count(f) <= u64::MAX
}

/// Whether a store has all that another has.
pub open spec fn keeps(old_store: Store, new_store: Store) -> bool {
    &&& forall|key: Seq<char>|
        json::has_key(old_store.names, key) ==> #[trigger] json::get(new_store.names, key) == json::get(
            old_store.names,
            key,
        )
    &&& forall|key: Seq<char>|
        json::has_key(old_store.contents, key) ==> #[trigger] json::get(new_store.contents, key) == json::get(
            old_store.contents,
            key,
        )
}

/// Whether the ids that were given out stay below the counter.
pub open spec fn bounded(st: Store, max: u64, count: nat, now: Store, now_max: u64) -> bool {
    st.counter + count <= u64::MAX ==> {
        &&& st.counter <= now.counter <= st.counter + count
        &&& now_max <= max || now_max < now.counter
    }
}

/// A song whose clips are all in its store stays as it is, so moving twice is
/// moving once.
pub proof fn law_draining_is_idempotent(song: Tree)
    requires
        song is Object ==> ids_fit(song->Object_0),
    ensures
        drained_song(drained_song(song)) == drained_song(song),
{
    if let Tree::Object(f) = song {
        lemma_keys();
        lemma_song(f);
    }
}

/// What the store of a song has before its clips are moved into it, it keeps:
/// the first content and the first name under an id win.
pub proof fn law_draining_keeps_the_store(f: Seq<Field>, key: Seq<char>)
    ensures
        json::has_key(object_at(f, "clip_contents"@), key) ==> json::get(
            object_at(drained_members(f), "clip_contents"@),
            key,
        ) == json::get(object_at(f, "clip_contents"@), key),
        json::has_key(object_at(f, "clip_content_names"@), key) ==> json::get(
            object_at(drained_members(f), "clip_content_names"@),
            key,
        ) == json::get(object_at(f, "clip_content_names"@), key),
{
    lemma_keys();
    let st = first_store(f);
    let tracks = tracks_at_drained(f, st);
    let lanes = lanes_at_drained(tracks.0, "song_lanes"@, tracks.1);
    if let Some(Tree::List(v)) = json::get(f, "tracks"@) {
        lemma_tracks(v, st, st);
    }
    if let Some(Tree::List(v)) = json::get(tracks.0, "song_lanes"@) {
        lemma_lanes(v, tracks.1, st);
    }
    assert(keeps(st, tracks.1));
    assert(keeps(tracks.1, lanes.1));
    assert(json::get(tracks.1.names, key) == json::get(tracks.1.names, key));
    assert(json::get(tracks.1.contents, key) == json::get(tracks.1.contents, key));
    lemma_with_store(lanes.0, lanes.1, "tracks"@);
}

/// A clip that is moved loses its name and its notes; they are in the store,
/// under its id, unless something else is there already.
pub proof fn law_clip_is_in_the_store(f: Seq<Field>, st: Store)
    ensures
        ({
            let r = clip_drained(Tree::Object(f), true, st);
            let key = text::decimal(content_id(r.0) as nat);
            &&& r.0.at("name"@) is None
            &&& r.0.at("notes"@) is None
            &&& clip_name(f) matches Some(s) ==> json::has_key(r.1.names, key) && (!json::has_key(st.names, key)
                ==> json::get(r.1.names, key) == Some(Tree::Text(s)))
            &&& clip_notes(f) matches Some(v) ==> json::has_key(r.1.contents, key) && (!json::has_key(
                st.contents,
                key,
            ) ==> json::get(r.1.contents, key) == Some(
                Tree::Object(seq![Field { key: "notes"@, value: Tree::List(v) }]),
            ))
        }),
{
    lemma_keys();
    lemma_bare(f);
    let g = bare(f);
    let fresh = content_id(Tree::Object(g)) == 0;
    let id = if fresh {
        st.counter
    } else {
        content_id(Tree::Object(g))
    };
    let value = Tree::Number(Number::Unsigned(id));
    json::law_with(g, "content_id"@, value, "name"@);
    json::law_with(g, "content_id"@, value, "notes"@);
    let key = text::decimal(id as nat);
    if let Some(s) = clip_name(f) {
        json::law_with(st.names, key, Tree::Text(s), key);
    }
    if let Some(v) = clip_notes(f) {
        json::law_with(st.contents, key, Tree::Object(seq![Field { key: "notes"@, value: Tree::List(v) }]), key);
    }
}

pub(crate) proof fn lemma_keys()
    ensures
        "tracks"@.len() == 6,
        "song_lanes"@.len() == 10,
        "clip_contents"@.len() == 13,
        "clip_content_names"@.len() == 18,
        "next_content_id"@.len() == 15,
        "clips"@.len() == 5,
        "automation_lanes"@.len() == 16,
        "name"@.len() == 4,
        "notes"@.len() == 5,
        "notes"@ != "clips"@,
        "content_id"@.len() == 10,
{
    reveal_strlit("tracks");
    reveal_strlit("song_lanes");
    reveal_strlit("clip_contents");
    reveal_strlit("clip_content_names");
    reveal_strlit("next_content_id");
    reveal_strlit("clips");
    reveal_strlit("automation_lanes");
    reveal_strlit("name");
    reveal_strlit("notes");
    reveal_strlit("content_id");
    assert("notes"@[0] != "clips"@[0]);
}

pub(crate) proof fn lemma_bare(f: Seq<Field>)
    ensures
        json::get(bare(f), "name"@) is None,
        json::get(bare(f), "notes"@) is None,
        json::get(bare(f), "content_id"@) == json::get(f, "content_id"@),
        json::get(f, "name"@) is None && json::get(f, "notes"@) is None ==> bare(f) == f,
{
    lemma_keys();
    let g = json::without(f, "name"@);
    json::law_without(f, "name"@, "content_id"@);
    json::law_without(g, "notes"@, "content_id"@);
    json::law_without(g, "notes"@, "name"@);
}

proof fn lemma_keep(f: Seq<Field>, key: Seq<char>, value: Tree, other: Seq<char>)
    ensures
        json::has_key(f, other) ==> json::get(keep(f, key, value), other) == json::get(f, other),
{
    json::law_with(f, key, value, other);
}

pub(crate) proof fn lemma_clip(clip: Tree, noted: bool, st: Store, noted2: bool, again: Store)
    ensures
        ({
            let r = clip_drained(clip, noted, st);
            &&& clip_drained(r.0, noted2, again) == (r.0, again)
            &&& keeps(st, r.1)
            &&& bounded(st, content_id(clip), 1, r.1, content_id(r.0))
        }),
{
    let r = clip_drained(clip, noted, st);
    if let Tree::Object(f) = clip {
        lemma_keys();
        lemma_bare(f);
        let g = bare(f);
        lemma_bare(g);
        let fresh = content_id(Tree::Object(g)) == 0;
        let id = if fresh {
            st.counter
        } else {
            content_id(Tree::Object(g))
        };
        let value = Tree::Number(Number::Unsigned(id));
        let h = json::with(g, "content_id"@, value);
        json::law_with(g, "content_id"@, value, "name"@);
        json::law_with(g, "content_id"@, value, "notes"@);
        lemma_bare(h);
        let key = text::decimal(id as nat);
        assert forall|k: Seq<char>| json::has_key(st.names, k) implies #[trigger] json::get(r.1.names, k) == json::get(
            st.names,
            k,
        ) by {
            if let Some(s) = clip_name(f) {
                lemma_keep(st.names, key, Tree::Text(s), k);
            }
        }
        assert forall|k: Seq<char>| json::has_key(st.contents, k) implies #[trigger] json::get(r.1.contents, k)
            == json::get(st.contents, k) by {
            if let Some(v) = clip_notes(f) {
                lemma_keep(
                    st.contents,
                    key,
                    Tree::Object(seq![Field { key: "notes"@, value: Tree::List(v) }]),
                    k,
                );
            }
        }
    }
}

pub(crate) proof fn lemma_keeps_chain(a: Store, b: Store, c: Store)
    requires
        keeps(a, b),
        keeps(b, c),
    ensures
        keeps(a, c),
{
    assert forall|key: Seq<char>| json::has_key(a.names, key) implies #[trigger] json::get(c.names, key) == json::get(
        a.names,
        key,
    ) by {
        assert(json::get(b.names, key) == json::get(a.names, key));
    }
    assert forall|key: Seq<char>| json::has_key(a.contents, key) implies #[trigger] json::get(c.contents, key)
        == json::get(a.contents, key) by {
        assert(json::get(b.contents, key) == json::get(a.contents, key));
    }
}

proof fn lemma_clips(v: Seq<Tree>, noted: bool, st: Store, again: Store)
    ensures
        ({
            let r = clips_drained(v, noted, st);
            &&& r.0.len() == v.len()
            &&& clips_drained(r.0, noted, again) == (r.0, again)
            &&& keeps(st, r.1)
            &&& bounded(st, clips_max(v), v.len(), r.1, clips_max(r.0))
        }),
    decreases v.len(),
{
    if v.len() > 0 {
        let before = clips_drained(v.drop_last(), noted, st);
        let r = clips_drained(v, noted, st);
        lemma_clips(v.drop_last(), noted, st, again);
        lemma_clip(v.last(), noted, before.1, noted, again);
        lemma_keeps_chain(st, before.1, r.1);
        assert(r.0.drop_last() =~= before.0);
    }
}

proof fn lemma_owner(t: Tree, noted: bool, st: Store, again: Store)
    ensures
        ({
            let r = owner_drained(t, noted, st);
            &&& owner_drained(r.0, noted, again) == (r.0, again)
            &&& keeps(st, r.1)
            &&& bounded(st, owner_max(t), device_chains::list_at(t.at("clips"@)).len(), r.1, owner_max(r.0))
            &&& t is Object == r.0 is Object
            &&& r.0.at("automation_lanes"@) == t.at("automation_lanes"@)
        }),
{
    lemma_keys();
    if let Tree::Object(f) = t {
        if let Some(Tree::List(v)) = json::get(f, "clips"@) {
            lemma_clips(v, noted, st, again);
            let w = Tree::List(clips_drained(v, noted, st).0);
            json::law_with(f, "clips"@, w, "automation_lanes"@);
            let g = json::with(f, "clips"@, w);
            json::law_with(g, "clips"@, w, "clips"@);
        }
    }
}

proof fn lemma_lanes(v: Seq<Tree>, st: Store, again: Store)
    ensures
        ({
            let r = lanes_drained(v, st);
            &&& r.0.len() == v.len()
            &&& lanes_drained(r.0, again) == (r.0, again)
            &&& keeps(st, r.1)
            &&& bounded(st, lanes_max(v), lanes_count(v), r.1, lanes_max(r.0))
        }),
    decreases v.len(),
{
    if v.len() > 0 {
        let before = lanes_drained(v.drop_last(), st);
        let r = lanes_drained(v, st);
        lemma_lanes(v.drop_last(), st, again);
        lemma_owner(v.last(), false, before.1, again);
        lemma_keeps_chain(st, before.1, r.1);
        assert(r.0.drop_last() =~= before.0);
    }
}

proof fn lemma_track(t: Tree, st: Store, again: Store)
    ensures
        ({
            let r = track_drained(t, st);
            &&& track_drained(r.0, again) == (r.0, again)
            &&& keeps(st, r.1)
            &&& bounded(st, track_max(t), track_count(t), r.1, track_max(r.0))
        }),
{
    lemma_keys();
    let o = owner_drained(t, true, st);
    let r = track_drained(t, st);
    lemma_owner(t, true, st, again);
    lemma_owner(o.0, true, again, again);
    if let Tree::Object(f) = o.0 {
        if let Some(Tree::List(v)) = json::get(f, "automation_lanes"@) {
            lemma_lanes(v, o.1, again);
            lemma_keeps_chain(st, o.1, r.1);
            let w = Tree::List(lanes_drained(v, o.1).0);
            json::law_with(f, "automation_lanes"@, w, "clips"@);
            let g = json::with(f, "automation_lanes"@, w);
            json::law_with(g, "automation_lanes"@, w, "automation_lanes"@);
            assert(r.0 == Tree::Object(g));
            assert(json::get(g, "clips"@) == json::get(f, "clips"@));
            if let Some(Tree::List(c)) = json::get(g, "clips"@) {
                let d = clips_drained(c, true, again);
                json::law_with(f, "clips"@, Tree::List(d.0), "clips"@);
                assert(d == (c, again));
                json::law_with(g, "clips"@, Tree::List(c), "clips"@);
            }
            assert(owner_drained(r.0, true, again) == (r.0, again));
        } else {
            assert(r == o);
        }
    }
}

proof fn lemma_tracks(v: Seq<Tree>, st: Store, again: Store)
    ensures
        ({
            let r = tracks_drained(v, st);
            &&& r.0.len() == v.len()
            &&& tracks_drained(r.0, again) == (r.0, again)
            &&& keeps(st, r.1)
            &&& bounded(st, tracks_max(v), tracks_count(v), r.1, tracks_max(r.0))
        }),
    decreases v.len(),
{
    if v.len() > 0 {
        let before = tracks_drained(v.drop_last(), st);
        let r = tracks_drained(v, st);
        lemma_tracks(v.drop_last(), st, again);
        lemma_track(v.last(), before.1, again);
        lemma_keeps_chain(st, before.1, r.1);
        assert(r.0.drop_last() =~= before.0);
    }
}

proof fn lemma_with_object(f: Seq<Field>, key: Seq<char>, m: Seq<Field>, other: Seq<char>)
    ensures
        object_at(with_object(f, key, m), key) == m,
        other != key ==> json::get(with_object(f, key, m), other) == json::get(f, other),
        object_at(f, key) == m && (m.len() > 0 || !json::has_key(f, key)) ==> with_object(f, key, m) == f,
        m.len() > 0 || !json::has_key(with_object(f, key, m), key),
{
    json::law_with(f, key, Tree::Object(m), other);
    json::law_without(f, key, other);
    if m.len() == 0 {
        assert(m =~= Seq::<Field>::empty());
    }
}

pub(crate) proof fn lemma_with_store(f: Seq<Field>, st: Store, other: Seq<char>)
    requires
        other != "clip_contents"@,
        other != "clip_content_names"@,
        other != "next_content_id"@,
    ensures
        ({
            let g = with_store(f, st);
            &&& json::get(g, other) == json::get(f, other)
            &&& object_at(g, "clip_contents"@) == st.contents
            &&& object_at(g, "clip_content_names"@) == st.names
            &&& json::get(g, "next_content_id"@) == Some(Tree::Number(Number::Unsigned(st.counter)))
            &&& with_store(g, st) == g
        }),
{
    lemma_keys();
    let f1 = with_object(f, "clip_contents"@, st.contents);
    let f2 = with_object(f1, "clip_content_names"@, st.names);
    let number = Tree::Number(Number::Unsigned(st.counter));
    let g = json::with(f2, "next_content_id"@, number);
    lemma_with_object(f, "clip_contents"@, st.contents, other);
    lemma_with_object(f1, "clip_content_names"@, st.names, other);
    lemma_with_object(f1, "clip_content_names"@, st.names, "clip_contents"@);
    json::law_with(f2, "next_content_id"@, number, other);
    json::law_with(f2, "next_content_id"@, number, "clip_contents"@);
    json::law_with(f2, "next_content_id"@, number, "clip_content_names"@);
    lemma_with_object(g, "clip_contents"@, st.contents, other);
    lemma_with_object(g, "clip_content_names"@, st.names, other);
    json::law_with(g, "next_content_id"@, number, other);
    assert(object_at(g, "clip_contents"@) == st.contents);
    assert(object_at(g, "clip_content_names"@) == st.names);
    assert(json::has_key(g, "clip_contents"@) == json::has_key(f1, "clip_contents"@)) by {
        assert(json::get(g, "clip_contents"@) == json::get(f1, "clip_contents"@));
    }
    assert(json::has_key(g, "clip_content_names"@) == json::has_key(f2, "clip_content_names"@)) by {
        assert(json::get(g, "clip_content_names"@) == json::get(f2, "clip_content_names"@));
    }
}

proof fn lemma_song(f: Seq<Field>)
    requires
        ids_fit(f),
    ensures
        drained_members(drained_members(f)) == drained_members(f),
{
    lemma_keys();
    let st = first_store(f);
    let tracks = tracks_at_drained(f, st);
    let f1 = tracks.0;
    let lanes = lanes_at_drained(f1, "song_lanes"@, tracks.1);
    let f2 = lanes.0;
    let done = lanes.1;
    let g = with_store(f2, done);
    let v = device_chains::list_at(json::get(f, "tracks"@));
    let l = device_chains::list_at(json::get(f, "song_lanes"@));
    lemma_tracks(v, st, done);
    let v1 = tracks_drained(v, st).0;
    if json::get(f, "tracks"@) matches Some(Tree::List(_)) {
        json::law_with(f, "tracks"@, Tree::List(v1), "song_lanes"@);
    } else {
        assert(v1 =~= v);
    }
    assert(json::get(f1, "song_lanes"@) == json::get(f, "song_lanes"@));
    lemma_lanes(l, tracks.1, done);
    let l1 = lanes_drained(l, tracks.1).0;
    if json::get(f1, "song_lanes"@) matches Some(Tree::List(_)) {
        json::law_with(f1, "song_lanes"@, Tree::List(l1), "tracks"@);
    } else {
        assert(l1 =~= l);
    }
    lemma_with_store(f2, done, "tracks"@);
    lemma_with_store(f2, done, "song_lanes"@);
    assert(device_chains::list_at(json::get(g, "tracks"@)) == v1);
    assert(device_chains::list_at(json::get(g, "song_lanes"@)) == l1);
    assert(st.counter > song_max(f));
    assert(done.counter > song_max(g));
    assert(first_store(g) =~= done);
    if json::get(g, "tracks"@) matches Some(Tree::List(_)) {
        json::law_with(g, "tracks"@, Tree::List(v1), "tracks"@);
    }
    assert(tracks_at_drained(g, done) == (g, done));
    if json::get(g, "song_lanes"@) matches Some(Tree::List(_)) {
        json::law_with(g, "song_lanes"@, Tree::List(l1), "song_lanes"@);
    }
    assert(lanes_at_drained(g, "song_lanes"@, done) == (g, done));
}

} // verus!
