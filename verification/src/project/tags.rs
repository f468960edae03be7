//! Contents told apart by their members, given a `type`.

use crate::json;
use crate::json::{has_member, member, member_mut, put_member, Field, Json, Member, Tree};
use vstd::prelude::*;
use vstd::string::*;

verus! {

/// The members of the first event of a content, if it has one.
pub open spec fn first_event(f: Seq<Field>) -> Option<Seq<Field>> {
    match json::get(f, "events"@) {
        Some(Tree::List(v)) => if v.len() > 0 {
            v[0].members()
        } else {
            None
        },
        _ => None,
    }
}

/// The type of a content that does not name it. Notes and points tell MIDI and
/// automation; a first event tells its kind by the member only it has, where a
/// text is asked for before an opacity, which texts have too. A content emptied
/// of its events or points is told by the counter that is left. Nothing at all
/// is MIDI.
pub open spec fn content_type(f: Seq<Field>) -> Seq<char> {
    if json::has_key(f, "notes"@) {
        "Midi"@
    } else if json::has_key(f, "points"@) {
        "Automation"@
    } else {
        match first_event(f) {
            Some(e) => if json::has_key(e, "source_start_micros"@) {
                "Video"@
            } else if json::has_key(e, "text"@) {
                "Text"@
            } else if json::has_key(e, "opacity"@) {
                "Image"@
            } else {
                "Audio"@
            },
            None => if json::has_key(f, "next_event_id"@) {
                "Audio"@
            } else if json::has_key(f, "next_point_id"@) {
                "Automation"@
            } else {
                "Midi"@
            },
        }
    }
}

/// A content that names its type.
pub open spec fn tagged(content: Tree) -> Tree {
    match content {
        Tree::Object(f) => if json::has_key(f, "type"@) {
            content
        } else {
            Tree::Object(json::with(f, "type"@, Tree::Text(content_type(f))))
        },
        _ => content,
    }
}

/// Contents that name their types.
pub open spec fn tagged_contents(contents: Tree) -> Tree {
    match contents {
        Tree::Object(f) => Tree::Object(
            Seq::new(f.len(), |i: int| Field { key: f[i].key, value: tagged(f[i].value) }),
        ),
        _ => contents,
    }
}

/// A song whose contents name their types.
pub open spec fn tagged_song(song: Tree) -> Tree {
    song.map_at("clip_contents"@, |c: Tree| tagged_contents(c))
}

/// A document whose contents name their types.
pub open spec fn tagged_document(doc: Tree) -> Tree {
    doc.map_at("song"@, |s: Tree| tagged_song(s))
}

/// The type of a content, see [`content_type`].
fn type_of(v: &Vec<Member>) -> (r: &'static str)
    ensures
        r@ == content_type(json::fields(v@)),
{
    if has_member(v, "notes") {
        return "Midi";
    }
    if has_member(v, "points") {
        return "Automation";
    }
    if let Some(Json::List(events)) = member(v, "events") {
        if events.len() > 0 {
            assert(json::trees(events@)[0] == json::tree(events@[0]));
            if let Json::Object(e) = &events[0] {
                return if has_member(e, "source_start_micros") {
                    "Video"
                } else if has_member(e, "text") {
                    "Text"
                } else if has_member(e, "opacity") {
                    "Image"
                } else {
                    "Audio"
                };
            }
        }
    }
    if has_member(v, "next_event_id") {
        "Audio"
    } else if has_member(v, "next_point_id") {
        "Automation"
    } else {
        "Midi"
    }
}

fn tag_content(content: &mut Json)
    ensures
        final(content)@ == tagged(old(content)@),
{
    match content {
        Json::Object(v) => {
            if !has_member(v, "type") {
                let kind = type_of(v);
                put_member(v, "type", Json::text(kind));
            }
        },
        _ => {},
    }
}

fn tag_contents(contents: &mut Json)
    ensures
        final(contents)@ == tagged_contents(old(contents)@),
{
    match contents {
        Json::Object(v) => {
            let ghost f = json::fields(v@);
            let mut i: usize = 0;
            while i < v.len()
                invariant
                    v@.len() == f.len(),
                    i <= v@.len(),
                    forall|k: int|
                        0 <= k < v@.len() ==> json::field_model(#[trigger] v@[k]) == if k < i {
                            (Field { key: f[k].key, value: tagged(f[k].value) })
                        } else {
                            f[k]
                        },
                decreases v@.len() - i,
            {
                tag_content(&mut v[i].value);
                i += 1;
            }
            assert(json::fields(v@) =~= Seq::new(
                f.len(),
                |i: int| Field { key: f[i].key, value: tagged(f[i].value) },
            ));
        },
        _ => {},
    }
}

/// Gives every content of a song that does not name its type the type that its
/// members tell.
pub fn tag_clip_contents_in_song(song: &mut Json)
    ensures
        final(song)@ == tagged_song(old(song)@),
{
    match song {
        Json::Object(v) => {
            if let Some(contents) = member_mut(v, "clip_contents") {
                tag_contents(contents);
            }
        },
        _ => {},
    }
}

/// [`tag_clip_contents_in_song`] for the song of a document.
pub fn migrate_clip_content_add_tag(value: &mut Json)
    ensures
        final(value)@ == tagged_document(old(value)@),
{
    match value {
        Json::Object(v) => {
            if let Some(song) = member_mut(v, "song") {
                tag_clip_contents_in_song(song);
            }
        },
        _ => {},
    }
}

/// A content that names its type stays as it is, so tagging twice is tagging
/// once.
pub proof fn law_tagging_is_idempotent(content: Tree, contents: Tree)
    ensures
        tagged(tagged(content)) == tagged(content),
        tagged_contents(tagged_contents(contents)) == tagged_contents(contents),
{
    lemma_tagged_twice(content);
    if let Tree::Object(f) = contents {
        let once = Seq::new(f.len(), |i: int| Field { key: f[i].key, value: tagged(f[i].value) });
        let twice = Seq::new(once.len(), |i: int| Field { key: once[i].key, value: tagged(once[i].value) });
        assert forall|i: int| 0 <= i < f.len() implies twice[i] == once[i] by {
            lemma_tagged_twice(f[i].value);
        }
        assert(twice =~= once);
    }
}

proof fn lemma_tagged_twice(content: Tree)
    ensures
        tagged(tagged(content)) == tagged(content),
{
    if let Tree::Object(f) = content {
        json::law_with(f, "type"@, Tree::Text(content_type(f)), "type"@);
    }
}

} // verus!
