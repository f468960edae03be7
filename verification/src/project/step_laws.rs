//! What holds of the single steps that bring documents and songs into the present form.

use super::clip_content;
use super::clip_content::Store;
use super::migration_laws;
use super::pools;
use super::pools::Pooling;
use super::song_steps;
use super::tags;
use crate::json;
use crate::json::{Field, Number, Tree};
use crate::model::clip::ContentModel;
use crate::model::{Clip, ContentEvent, DeviceModel, SongModel, TrackModel};
use crate::plugin_db;
use crate::plugin_format::PluginFormat;
use crate::text;
use vstd::prelude::*;
use vstd::string::*;

verus! {

// ---------------------------------------------------------------------------
// Pools
// ---------------------------------------------------------------------------

/// Whether members were moved out of a song: those with the keys are in the pool as they
/// were, and the others are still there.
spec fn is_pooled(p: Pooling, f: Seq<Field>, keys: Seq<Seq<char>>) -> bool {
    forall|key: Seq<char>|
        #![trigger json::get(f, key)]
        if keys.contains(key) {
            json::get(p.song, key) is None && json::get(p.pool, key) == json::get(f, key)
        } else {
            json::get(p.song, key) == json::get(f, key) && json::get(p.pool, key) is None
        }
}

proof fn lemma_pooled(p: Pooling, f: Seq<Field>, keys: Seq<Seq<char>>, next: Seq<char>)
    requires
        is_pooled(p, f, keys),
    ensures
        is_pooled(p.moved(next), f, keys.push(next)),
{
    let r = p.moved(next);
    let more = keys.push(next);
    assert forall|key: Seq<char>|
        #![trigger json::get(f, key)]
        if more.contains(key) {
            json::get(r.song, key) is None && json::get(r.pool, key) == json::get(f, key)
        } else {
            json::get(r.song, key) == json::get(f, key) && json::get(r.pool, key) is None
        } by {
        assert(more.contains(key) <==> keys.contains(key) || key == next) by {
            if keys.contains(key) {
                let k = choose|k: int| 0 <= k < keys.len() && keys[k] == key;
                assert(more[k] == key);
            }
            if key == next {
                assert(more[keys.len() as int] == key);
            }
            if more.contains(key) && key != next {
                let k = choose|k: int| 0 <= k < more.len() && more[k] == key;
                assert(keys[k] == key);
            }
        }
        assert(json::get(f, next) == json::get(f, next));
        if let Some(v) = json::get(p.song, next) {
            json::law_without(p.song, next, key);
            json::law_with(p.pool, next, v, key);
        }
    }
}

proof fn lemma_unpooled(f: Seq<Field>)
    ensures
        is_pooled(Pooling { song: f, pool: Seq::empty() }, f, Seq::empty()),
{
    let p = Pooling { song: f, pool: Seq::empty() };
    assert forall|key: Seq<char>|
        #![trigger json::get(f, key)]
        json::get(p.pool, key) is None by {
        json::lemma_key_place(p.pool, key, 0);
    }
}

/// Whether the members of a song with the keys are in an object of their own.
pub open spec fn are_in_an_object(now: Tree, was: Tree, object: Seq<char>, keys: Seq<Seq<char>>) -> bool {
    &&& forall|key: Seq<char>|
        keys.contains(key) && was.at(key) is Some ==> now.at(object) is Some && now.at(object)->0.at(key)
            == #[trigger] was.at(key)
    &&& forall|key: Seq<char>| keys.contains(key) ==> #[trigger] now.at(key) is None
    &&& forall|key: Seq<char>|
        !keys.contains(key) && now.at(object) is Some ==> #[trigger] now.at(object)->0.at(key) is None
    &&& forall|key: Seq<char>| !keys.contains(key) && key != object ==> #[trigger] now.at(key) == was.at(key)
    &&& now.at(object) is Some ==> exists|key: Seq<char>| #[trigger] keys.contains(key) && was.at(key) is Some
}

proof fn lemma_closed(p: Pooling, f: Seq<Field>, keys: Seq<Seq<char>>, object: Seq<char>)
    requires
        is_pooled(p, f, keys),
        !keys.contains(object),
        json::get(f, object) is None,
    ensures
        are_in_an_object(Tree::Object(p.closed_as(object)), Tree::Object(f), object, keys),
{
    let pool = Tree::Object(p.pool);
    let now = Tree::Object(p.closed_as(object));
    let was = Tree::Object(f);
    json::law_with(p.song, object, pool, object);
    assert(json::get(f, object) is None);
    assert forall|key: Seq<char>|
        keys.contains(key) && was.at(key) is Some implies now.at(object) is Some && now.at(object)->0.at(key)
        == #[trigger] was.at(key) by {
        json::lemma_key_place(p.pool, key, 0);
    }
    assert forall|key: Seq<char>| keys.contains(key) implies #[trigger] now.at(key) is None by {
        assert(json::get(f, key) == json::get(f, key));
        json::law_with(p.song, object, pool, key);
    }
    assert forall|key: Seq<char>|
        !keys.contains(key) && now.at(object) is Some implies #[trigger] now.at(object)->0.at(key) is None by {
        assert(json::get(f, key) == json::get(f, key));
    }
    assert forall|key: Seq<char>| !keys.contains(key) && key != object implies #[trigger] now.at(key) == was.at(key) by {
        assert(json::get(f, key) == json::get(f, key));
        json::law_with(p.song, object, pool, key);
    }
    if p.pool.len() > 0 {
        let key = p.pool[0].key;
        json::lemma_key_place_is(p.pool, key, 0);
        assert(json::get(f, key) == json::get(f, key));
        assert(keys.contains(key) && was.at(key) is Some);
    }
}

/// The media of a song are in a pool of their own then, as they were. A song that has
/// pools stays as it is.
pub proof fn law_media_are_pooled(song: Tree)
    requires
        song is Object,
    ensures
        song.at("media"@) is Some ==> pools::with_media_pools(song) == song,
        song.at("media"@) is None ==> are_in_an_object(
            pools::with_media_pools(song),
            song,
            "media"@,
            seq!["audio_sources"@, "video_sources"@, "image_sources"@],
        ),
{
    let f = song->Object_0;
    json::lemma_key_place(f, "media"@, 0);
    if song.at("media"@) is None {
        let p = Pooling { song: f, pool: Seq::empty() };
        let none = Seq::<Seq<char>>::empty();
        lemma_unpooled(f);
        lemma_pooled(p, f, none, "audio_sources"@);
        let p1 = p.moved("audio_sources"@);
        let k1 = none.push("audio_sources"@);
        lemma_pooled(p1, f, k1, "video_sources"@);
        let p2 = p1.moved("video_sources"@);
        let k2 = k1.push("video_sources"@);
        lemma_pooled(p2, f, k2, "image_sources"@);
        let p3 = p2.moved("image_sources"@);
        let k3 = k2.push("image_sources"@);
        reveal_strlit("media");
        reveal_strlit("audio_sources");
        reveal_strlit("video_sources");
        reveal_strlit("image_sources");
        assert("media"@.len() == 5);
        assert("audio_sources"@.len() == 13 && "video_sources"@.len() == 13 && "image_sources"@.len() == 13);
        assert(!k3.contains("media"@));
        lemma_closed(p3, f, k3, "media"@);
        assert(k3 =~= seq!["audio_sources"@, "video_sources"@, "image_sources"@]);
    }
}

/// The id counters of a song are in an object of their own then, as they were. A song
/// that has such an object stays as it is.
pub proof fn law_counters_are_pooled(song: Tree)
    requires
        song is Object,
    ensures
        song.at("ids"@) is Some ==> pools::with_allocators(song) == song,
        song.at("ids"@) is None ==> are_in_an_object(
            pools::with_allocators(song),
            song,
            "ids"@,
            seq![
                "next_track_id"@,
                "next_device_id"@,
                "next_content_id"@,
                "next_audio_source_id"@,
                "next_video_source_id"@,
                "next_image_source_id"@,
                "next_song_lane_id"@,
                "next_section_id"@,
                "next_mod_source_id"@,
            ],
        ),
{
    let f = song->Object_0;
    json::lemma_key_place(f, "ids"@, 0);
    if song.at("ids"@) is None {
        let p = Pooling { song: f, pool: Seq::empty() };
        let k = Seq::<Seq<char>>::empty();
        lemma_unpooled(f);
        lemma_pooled(p, f, k, "next_track_id"@);
        let p = p.moved("next_track_id"@);
        let k = k.push("next_track_id"@);
        lemma_pooled(p, f, k, "next_device_id"@);
        let p = p.moved("next_device_id"@);
        let k = k.push("next_device_id"@);
        lemma_pooled(p, f, k, "next_content_id"@);
        let p = p.moved("next_content_id"@);
        let k = k.push("next_content_id"@);
        lemma_pooled(p, f, k, "next_audio_source_id"@);
        let p = p.moved("next_audio_source_id"@);
        let k = k.push("next_audio_source_id"@);
        lemma_pooled(p, f, k, "next_video_source_id"@);
        let p = p.moved("next_video_source_id"@);
        let k = k.push("next_video_source_id"@);
        lemma_pooled(p, f, k, "next_image_source_id"@);
        let p = p.moved("next_image_source_id"@);
        let k = k.push("next_image_source_id"@);
        lemma_pooled(p, f, k, "next_song_lane_id"@);
        let p = p.moved("next_song_lane_id"@);
        let k = k.push("next_song_lane_id"@);
        lemma_pooled(p, f, k, "next_section_id"@);
        let p = p.moved("next_section_id"@);
        let k = k.push("next_section_id"@);
        lemma_pooled(p, f, k, "next_mod_source_id"@);
        let p = p.moved("next_mod_source_id"@);
        let k = k.push("next_mod_source_id"@);
        lemma_counter_keys();
        assert(!k.contains("ids"@));
        lemma_closed(p, f, k, "ids"@);
        assert(k =~= seq![
            "next_track_id"@,
            "next_device_id"@,
            "next_content_id"@,
            "next_audio_source_id"@,
            "next_video_source_id"@,
            "next_image_source_id"@,
            "next_song_lane_id"@,
            "next_section_id"@,
            "next_mod_source_id"@,
        ]);
    }
}

proof fn lemma_counter_keys()
    ensures
        "ids"@.len() == 3,
        "next_track_id"@.len() == 13,
        "next_device_id"@.len() == 14,
        "next_content_id"@.len() == 15,
        "next_audio_source_id"@.len() == 20,
        "next_video_source_id"@.len() == 20,
        "next_image_source_id"@.len() == 20,
        "next_song_lane_id"@.len() == 17,
        "next_section_id"@.len() == 15,
        "next_mod_source_id"@.len() == 18,
{
    reveal_strlit("ids");
    reveal_strlit("next_track_id");
    reveal_strlit("next_device_id");
    reveal_strlit("next_content_id");
    reveal_strlit("next_audio_source_id");
    reveal_strlit("next_video_source_id");
    reveal_strlit("next_image_source_id");
    reveal_strlit("next_song_lane_id");
    reveal_strlit("next_section_id");
    reveal_strlit("next_mod_source_id");
}

// ---------------------------------------------------------------------------
// Types of contents
// ---------------------------------------------------------------------------

/// Whether a type is the one that the members of a content tell.
pub open spec fn is_told_type(name: Seq<char>, content: Tree) -> bool {
    let events = migration_laws::items(content.at("events"@));
    let event = events[0];
    let has_event = events.len() > 0 && event is Object;
    let bare = content.at("notes"@) is None && content.at("points"@) is None;
    &&& content.at("notes"@) is Some ==> name == "Midi"@
    &&& content.at("notes"@) is None && content.at("points"@) is Some ==> name == "Automation"@
    &&& bare && has_event && event.at("source_start_micros"@) is Some ==> name == "Video"@
    &&& bare && has_event && event.at("source_start_micros"@) is None && event.at("text"@) is Some ==> name == "Text"@
    &&& bare && has_event && event.at("source_start_micros"@) is None && event.at("text"@) is None && event.at(
        "opacity"@,
    ) is Some ==> name == "Image"@
    &&& bare && has_event && event.at("source_start_micros"@) is None && event.at("text"@) is None && event.at(
        "opacity"@,
    ) is None ==> name == "Audio"@
    &&& bare && !has_event && content.at("next_event_id"@) is Some ==> name == "Audio"@
    &&& bare && !has_event && content.at("next_event_id"@) is None && content.at("next_point_id"@) is Some ==> name
        == "Automation"@
    &&& bare && !has_event && content.at("next_event_id"@) is None && content.at("next_point_id"@) is None ==> name
        == "Midi"@
}

/// Whether a content is another one that names its type. One that does stays as it is.
pub open spec fn names_its_type(now: Tree, was: Tree) -> bool {
    if was !is Object || was.at("type"@) is Some {
        now == was
    } else {
        &&& forall|key: Seq<char>| key != "type"@ ==> #[trigger] now.at(key) == was.at(key)
        &&& now.at("type"@) is Some
        &&& now.at("type"@)->0 is Text
        &&& is_told_type(now.at("type"@)->0->Text_0, was)
    }
}

proof fn lemma_names_its_type(content: Tree)
    ensures
        names_its_type(tags::tagged(content), content),
{
    if let Tree::Object(f) = content {
        json::lemma_key_place(f, "type"@, 0);
        if !json::has_key(f, "type"@) {
            let name = Tree::Text(tags::content_type(f));
            json::law_with(f, "type"@, name, "type"@);
            assert forall|key: Seq<char>| key != "type"@ implies #[trigger] tags::tagged(content).at(key)
                == content.at(key) by {
                json::law_with(f, "type"@, name, key);
            }
            assert(is_told_type(tags::content_type(f), content));
        }
    }
}

/// Every content of a song then names the type that its members tell, under the id that
/// it had.
pub proof fn law_contents_name_their_types(song: Tree, i: int)
    requires
        song.at("clip_contents"@) is Some,
        song.at("clip_contents"@)->0 is Object,
        0 <= i < song.at("clip_contents"@)->0->Object_0.len(),
    ensures
        ({
            let was = song.at("clip_contents"@)->0->Object_0;
            let now = tags::tagged_song(song).at("clip_contents"@)->0->Object_0;
            &&& tags::tagged_song(song).at("clip_contents"@) is Some
            &&& now.len() == was.len()
            &&& now[i].key == was[i].key
            &&& names_its_type(now[i].value, was[i].value)
            &&& forall|key: Seq<char>|
                key != "clip_contents"@ ==> #[trigger] tags::tagged_song(song).at(key) == song.at(key)
        }),
{
    migration_laws::lemma_map_at(song, "clip_contents"@, |c: Tree| tags::tagged_contents(c));
    lemma_names_its_type(song.at("clip_contents"@)->0->Object_0[i].value);
}

// ---------------------------------------------------------------------------
// Texts and mutes
// ---------------------------------------------------------------------------

/// Whether a device is the one that shows texts.
pub open spec fn shows_texts(d: DeviceModel) -> bool {
    &&& d is Plugin
    &&& d->Plugin_0.plugin_id == plugin_db::SUBTITLE_ID@
    &&& d->Plugin_0.format == PluginFormat::Builtin
}

/// Whether a track has a text to show.
pub open spec fn has_texts(t: TrackModel, contents: Seq<(u32, ContentModel)>) -> bool {
    exists|c: int, i: int|
        0 <= c < t.clips.len() && 0 <= i < contents.len() && (#[trigger] t.clips[c]).content_id == (
        #[trigger] contents[i]).0 && contents[i].1 is Text
}

/// Whether a track has the device that shows texts.
pub open spec fn can_show_texts(t: TrackModel) -> bool {
    exists|d: int| 0 <= d < t.devices.len() && shows_texts(#[trigger] t.devices[d])
}

/// Every track that has a text can show it then: one that could not has the device for it
/// behind its others. Nothing else of a song changes.
pub proof fn law_texts_are_shown(song: SongModel, t: int)
    requires
        0 <= t < song.tracks.len(),
    ensures
        ({
            let now = song_steps::subtitled_song(song);
            let was = song.tracks[t];
            let track = now.tracks[t];
            &&& now == (SongModel { tracks: now.tracks, ..song })
            &&& now.tracks.len() == song.tracks.len()
            &&& if has_texts(was, song.clip_contents) && !can_show_texts(was) {
                &&& track == (TrackModel { devices: track.devices, ..was })
                &&& track.devices.len() == was.devices.len() + 1
                &&& track.devices.drop_last() == was.devices
                &&& shows_texts(track.devices.last())
                &&& !track.devices.last()->Plugin_0.bypassed
                &&& track.devices.last()->Plugin_0.ports.has_video_input
                &&& track.devices.last()->Plugin_0.ports.has_video_output
                &&& !track.devices.last()->Plugin_0.ports.has_audio_output
                &&& !track.devices.last()->Plugin_0.ports.has_note_input
            } else {
                track == was
            }
        }),
{
    let was = song.tracks[t];
    let contents = song.clip_contents;
    assert(has_texts(was, contents) == song_steps::shows_text(was.clips, contents)) by {
        if has_texts(was, contents) {
            let (c, i) = choose|c: int, i: int|
                0 <= c < was.clips.len() && 0 <= i < contents.len() && (#[trigger] was.clips[c]).content_id == (
                #[trigger] contents[i]).0 && contents[i].1 is Text;
            assert(song_steps::is_text(contents, was.clips[c].content_id));
        }
        if song_steps::shows_text(was.clips, contents) {
            let c = choose|c: int| 0 <= c < was.clips.len() && song_steps::is_text(contents, (#[trigger] was.clips[c]).content_id);
            let i = choose|i: int|
                0 <= i < contents.len() && (#[trigger] contents[i]).0 == was.clips[c].content_id && contents[i].1 is Text;
            assert(was.clips[c].content_id == contents[i].0);
        }
    }
    assert(can_show_texts(was) == crate::model::track_ids::has_builtin_plugin(was.devices, plugin_db::SUBTITLE_ID@)) by {
        if can_show_texts(was) {
            let d = choose|d: int| 0 <= d < was.devices.len() && shows_texts(#[trigger] was.devices[d]);
            assert(crate::model::track_ids::is_builtin_plugin(was.devices[d], plugin_db::SUBTITLE_ID@));
        }
        if crate::model::track_ids::has_builtin_plugin(was.devices, plugin_db::SUBTITLE_ID@) {
            let d = choose|d: int|
                0 <= d < was.devices.len() && #[trigger] crate::model::track_ids::is_builtin_plugin(
                    was.devices[d],
                    plugin_db::SUBTITLE_ID@,
                );
            assert(shows_texts(was.devices[d]));
        }
    }
    assert(was.devices.push(song_steps::subtitle_device()).drop_last() =~= was.devices);
}

/// The events of a content, if it has any that can be muted.
pub open spec fn events_of(c: ContentModel) -> Seq<ContentEvent> {
    match c {
        ContentModel::Audio(v) => v,
        ContentModel::Image(v) => v,
        ContentModel::Video(v) => v,
        ContentModel::Text(v) => v,
        _ => Seq::empty(),
    }
}

/// Whether contents are of the same kind.
pub open spec fn are_of_one_kind(a: ContentModel, b: ContentModel) -> bool {
    &&& a is Midi ==> b == a
    &&& a is Automation ==> b == a
    &&& a is Audio <==> b is Audio
    &&& a is Video <==> b is Video
    &&& a is Image <==> b is Image
    &&& a is Text <==> b is Text
}

/// Whether an event of the content with an id is muted.
pub open spec fn has_a_muted_event(contents: Seq<(u32, ContentModel)>, id: u32) -> bool {
    exists|i: int, e: int|
        0 <= i < contents.len() && (#[trigger] contents[i]).0 == id && 0 <= e < events_of(contents[i].1).len() && (
        #[trigger] events_of(contents[i].1)[e]).muted
}

/// A clip is muted then if an event of its content was, and no event is. Nothing else of
/// a song changes.
pub proof fn law_mutes_go_to_clips(song: SongModel)
    ensures
        ({
            let now = song_steps::clips_muted(song);
            let contents = song.clip_contents;
            &&& now == (SongModel { tracks: now.tracks, clip_contents: now.clip_contents, ..song })
            &&& now.tracks.len() == song.tracks.len()
            &&& forall|t: int|
                0 <= t < song.tracks.len() ==> {
                    let was = song.tracks[t];
                    &&& (#[trigger] now.tracks[t]) == (TrackModel { clips: now.tracks[t].clips, ..was })
                    &&& now.tracks[t].clips.len() == was.clips.len()
                    &&& forall|c: int|
                        0 <= c < was.clips.len() ==> #[trigger] now.tracks[t].clips[c] == (Clip {
                            muted: was.clips[c].muted || has_a_muted_event(contents, was.clips[c].content_id),
                            ..was.clips[c]
                        })
                }
            &&& now.clip_contents.len() == contents.len()
            &&& forall|i: int|
                0 <= i < contents.len() ==> {
                    let events = events_of(contents[i].1);
                    let kept = events_of((#[trigger] now.clip_contents[i]).1);
                    &&& now.clip_contents[i].0 == contents[i].0
                    &&& are_of_one_kind(contents[i].1, now.clip_contents[i].1)
                    &&& kept.len() == events.len()
                    &&& forall|e: int|
                        0 <= e < events.len() ==> #[trigger] kept[e] == (ContentEvent { muted: false, ..events[e] })
                }
        }),
{
    let now = song_steps::clips_muted(song);
    let contents = song.clip_contents;
    assert forall|id: u32| #[trigger] has_a_muted_event(contents, id) == song_steps::is_muted_content(contents, id) by {
        if has_a_muted_event(contents, id) {
            let (i, e) = choose|i: int, e: int|
                0 <= i < contents.len() && (#[trigger] contents[i]).0 == id && 0 <= e < events_of(contents[i].1).len() && (
                #[trigger] events_of(contents[i].1)[e]).muted;
            assert(song_steps::any_muted(events_of(contents[i].1)));
            assert(song_steps::has_muted_event(contents[i].1));
        }
        if song_steps::is_muted_content(contents, id) {
            let i = choose|i: int|
                0 <= i < contents.len() && (#[trigger] contents[i]).0 == id && song_steps::has_muted_event(
                    contents[i].1,
                );
            let v = events_of(contents[i].1);
            assert(song_steps::any_muted(v));
            let e = choose|e: int| 0 <= e < v.len() && (#[trigger] v[e]).muted;
            assert(events_of(contents[i].1)[e].muted);
        }
    }
    assert forall|t: int, c: int|
        0 <= t < song.tracks.len() && 0 <= c < song.tracks[t].clips.len() implies #[trigger] now.tracks[t].clips[c] == (
    Clip {
        muted: song.tracks[t].clips[c].muted || has_a_muted_event(contents, song.tracks[t].clips[c].content_id),
        ..song.tracks[t].clips[c]
    }) by {
        assert(has_a_muted_event(contents, song.tracks[t].clips[c].content_id) == song_steps::is_muted_content(
            contents,
            song.tracks[t].clips[c].content_id,
        ));
    }
}

// ---------------------------------------------------------------------------
// Contents of clips
// ---------------------------------------------------------------------------

/// Whether a clip has a name.
pub open spec fn has_name(clip: Tree) -> bool {
    clip.at("name"@) is Some && clip.at("name"@)->0 is Text && clip.at("name"@)->0->Text_0.len() > 0
}

/// Whether a clip has notes.
pub open spec fn has_notes(clip: Tree) -> bool {
    clip.at("notes"@) is Some && clip.at("notes"@)->0 is List && clip.at("notes"@)->0->List_0.len() > 0
}

/// The id of the content of a clip; zero, if it has none.
pub open spec fn id_in(clip: Tree) -> u64 {
    match clip.at("content_id"@) {
        Some(Tree::Number(Number::Unsigned(n))) => n,
        _ => 0,
    }
}

/// Whether a clip is another one whose name and notes are in a store, under the id of its
/// content. It keeps an id that it has.
pub open spec fn is_clip_in_store(now: Tree, was: Tree, noted: bool, st: Store) -> bool {
    let key = text::decimal(id_in(now) as nat);
    if was !is Object {
        now == was
    } else {
        &&& now is Object
        &&& now.at("name"@) is None
        &&& now.at("notes"@) is None
        &&& forall|key: Seq<char>|
            key != "name"@ && key != "notes"@ && key != "content_id"@ ==> #[trigger] now.at(key) == was.at(key)
        &&& has_name(was) ==> json::has_key(st.names, key)
        &&& noted && has_notes(was) ==> json::has_key(st.contents, key)
        &&& id_in(was) != 0 || !(has_name(was) || noted && has_notes(was)) ==> now.at("content_id"@) == was.at(
            "content_id"@,
        )
    }
}

/// Whether clips are others whose names and notes are in a store.
pub open spec fn are_clips_in_store(now: Seq<Tree>, was: Seq<Tree>, noted: bool, st: Store) -> bool {
    &&& now.len() == was.len()
    &&& forall|i: int| 0 <= i < was.len() ==> is_clip_in_store(#[trigger] now[i], was[i], noted, st)
}

proof fn lemma_clip_stays(now: Tree, was: Tree, noted: bool, a: Store, b: Store)
    requires
        is_clip_in_store(now, was, noted, a),
        clip_content::keeps(a, b),
    ensures
        is_clip_in_store(now, was, noted, b),
{
    let key = text::decimal(id_in(now) as nat);
    assert(json::get(b.names, key) == json::get(b.names, key));
    assert(json::get(b.contents, key) == json::get(b.contents, key));
}

proof fn lemma_clips_stay(now: Seq<Tree>, was: Seq<Tree>, noted: bool, a: Store, b: Store)
    requires
        are_clips_in_store(now, was, noted, a),
        clip_content::keeps(a, b),
    ensures
        are_clips_in_store(now, was, noted, b),
{
    assert forall|i: int| 0 <= i < was.len() implies is_clip_in_store(#[trigger] now[i], was[i], noted, b) by {
        lemma_clip_stays(now[i], was[i], noted, a, b);
    }
}

proof fn lemma_clip_in_store(clip: Tree, noted: bool, st: Store)
    ensures
        ({
            let r = clip_content::clip_drained(clip, noted, st);
            &&& is_clip_in_store(r.0, clip, noted, r.1)
            &&& clip_content::keeps(st, r.1)
        }),
{
    clip_content::lemma_clip(clip, noted, st, noted, st);
    if let Tree::Object(f) = clip {
        clip_content::lemma_keys();
        clip_content::lemma_bare(f);
        let r = clip_content::clip_drained(clip, noted, st);
        let g = clip_content::bare(f);
        let a = json::without(f, "name"@);
        let fresh = clip_content::content_id(Tree::Object(g)) == 0;
        let id = if fresh {
            st.counter
        } else {
            clip_content::content_id(Tree::Object(g))
        };
        let value = Tree::Number(Number::Unsigned(id));
        json::law_with(g, "content_id"@, value, "name"@);
        json::law_with(g, "content_id"@, value, "notes"@);
        assert forall|key: Seq<char>|
            key != "name"@ && key != "notes"@ && key != "content_id"@ implies #[trigger] r.0.at(key) == clip.at(key) by {
            json::law_without(f, "name"@, key);
            json::law_without(a, "notes"@, key);
            json::law_with(g, "content_id"@, value, key);
        }
        let key = text::decimal(id as nat);
        if let Some(s) = clip_content::clip_name(f) {
            json::law_with(st.names, key, Tree::Text(s), key);
        }
        if let Some(v) = clip_content::clip_notes(f) {
            json::law_with(
                st.contents,
                key,
                Tree::Object(seq![Field { key: "notes"@, value: Tree::List(v) }]),
                key,
            );
        }
    }
}

proof fn lemma_clips_in_store(v: Seq<Tree>, noted: bool, st: Store)
    ensures
        ({
            let r = clip_content::clips_drained(v, noted, st);
            &&& are_clips_in_store(r.0, v, noted, r.1)
            &&& clip_content::keeps(st, r.1)
        }),
    decreases v.len(),
{
    if v.len() > 0 {
        let front = v.drop_last();
        lemma_clips_in_store(front, noted, st);
        let before = clip_content::clips_drained(front, noted, st);
        let r = clip_content::clips_drained(v, noted, st);
        lemma_clip_in_store(v.last(), noted, before.1);
        clip_content::lemma_keeps_chain(st, before.1, r.1);
        lemma_clips_stay(before.0, front, noted, before.1, r.1);
        assert forall|i: int| 0 <= i < v.len() implies is_clip_in_store(#[trigger] r.0[i], v[i], noted, r.1) by {
            if i < front.len() {
                assert(r.0[i] == before.0[i]);
                assert(front[i] == v[i]);
            }
        }
    }
}

/// Whether what has clips is another with its clips in a store.
pub open spec fn is_owner_in_store(now: Tree, was: Tree, noted: bool, st: Store) -> bool {
    &&& was.at("clips"@) is Some && was.at("clips"@)->0 is List ==> {
        &&& now.at("clips"@) is Some
        &&& now.at("clips"@)->0 is List
        &&& are_clips_in_store(now.at("clips"@)->0->List_0, was.at("clips"@)->0->List_0, noted, st)
    }
    &&& !(was.at("clips"@) is Some && was.at("clips"@)->0 is List) ==> now.at("clips"@) == was.at("clips"@)
}

proof fn lemma_owner_stays(now: Tree, was: Tree, noted: bool, a: Store, b: Store)
    requires
        is_owner_in_store(now, was, noted, a),
        clip_content::keeps(a, b),
    ensures
        is_owner_in_store(now, was, noted, b),
{
    if was.at("clips"@) is Some && was.at("clips"@)->0 is List {
        lemma_clips_stay(now.at("clips"@)->0->List_0, was.at("clips"@)->0->List_0, noted, a, b);
    }
}

proof fn lemma_owner_in_store(t: Tree, noted: bool, st: Store)
    ensures
        ({
            let r = clip_content::owner_drained(t, noted, st);
            &&& is_owner_in_store(r.0, t, noted, r.1)
            &&& clip_content::keeps(st, r.1)
            &&& r.0 is Object == t is Object
            &&& forall|key: Seq<char>| key != "clips"@ ==> #[trigger] r.0.at(key) == t.at(key)
        }),
{
    if let Tree::Object(f) = t {
        if let Some(Tree::List(v)) = json::get(f, "clips"@) {
            lemma_clips_in_store(v, noted, st);
            let r = clip_content::owner_drained(t, noted, st);
            let list = Tree::List(clip_content::clips_drained(v, noted, st).0);
            json::law_with(f, "clips"@, list, "clips"@);
            assert forall|key: Seq<char>| key != "clips"@ implies #[trigger] r.0.at(key) == t.at(key) by {
                json::law_with(f, "clips"@, list, key);
            }
        }
    }
}

/// Whether lanes are others with their clips in a store, and as they were otherwise.
pub open spec fn are_lanes_in_store(now: Seq<Tree>, was: Seq<Tree>, st: Store) -> bool {
    &&& now.len() == was.len()
    &&& forall|i: int| 0 <= i < was.len() ==> is_owner_in_store(#[trigger] now[i], was[i], false, st)
    &&& forall|i: int, key: Seq<char>|
        0 <= i < was.len() && key != "clips"@ ==> #[trigger] now[i].at(key) == was[i].at(key)
}

proof fn lemma_lanes_stay(now: Seq<Tree>, was: Seq<Tree>, a: Store, b: Store)
    requires
        are_lanes_in_store(now, was, a),
        clip_content::keeps(a, b),
    ensures
        are_lanes_in_store(now, was, b),
{
    assert forall|i: int| 0 <= i < was.len() implies is_owner_in_store(#[trigger] now[i], was[i], false, b) by {
        lemma_owner_stays(now[i], was[i], false, a, b);
    }
}

proof fn lemma_lanes_in_store(v: Seq<Tree>, st: Store)
    ensures
        ({
            let r = clip_content::lanes_drained(v, st);
            &&& are_lanes_in_store(r.0, v, r.1)
            &&& clip_content::keeps(st, r.1)
        }),
    decreases v.len(),
{
    if v.len() > 0 {
        let front = v.drop_last();
        lemma_lanes_in_store(front, st);
        let before = clip_content::lanes_drained(front, st);
        let r = clip_content::lanes_drained(v, st);
        lemma_owner_in_store(v.last(), false, before.1);
        clip_content::lemma_keeps_chain(st, before.1, r.1);
        lemma_lanes_stay(before.0, front, before.1, r.1);
        assert forall|i: int| 0 <= i < v.len() implies is_owner_in_store(#[trigger] r.0[i], v[i], false, r.1) by {
            if i < front.len() {
                assert(r.0[i] == before.0[i]);
                assert(front[i] == v[i]);
            }
        }
        assert forall|i: int, key: Seq<char>| 0 <= i < v.len() && key != "clips"@ implies #[trigger] r.0[i].at(key)
            == v[i].at(key) by {
            if i < front.len() {
                assert(r.0[i] == before.0[i]);
                assert(before.0[i].at(key) == front[i].at(key));
            }
        }
    }
}

/// Whether a track is another with the clips of its own and of its lanes in a store.
pub open spec fn is_track_in_store(now: Tree, was: Tree, st: Store) -> bool {
    &&& is_owner_in_store(now, was, true, st)
    &&& are_lanes_in_store(
        migration_laws::items(now.at("automation_lanes"@)),
        migration_laws::items(was.at("automation_lanes"@)),
        st,
    )
    &&& forall|key: Seq<char>| key != "clips"@ && key != "automation_lanes"@ ==> #[trigger] now.at(key) == was.at(key)
}

proof fn lemma_track_in_store(t: Tree, st: Store)
    ensures
        ({
            let r = clip_content::track_drained(t, st);
            &&& is_track_in_store(r.0, t, r.1)
            &&& clip_content::keeps(st, r.1)
        }),
{
    clip_content::lemma_keys();
    lemma_owner_in_store(t, true, st);
    let o = clip_content::owner_drained(t, true, st);
    let r = clip_content::track_drained(t, st);
    assert(o.0.at("automation_lanes"@) == t.at("automation_lanes"@));
    if let Tree::Object(f) = o.0 {
        if let Some(Tree::List(v)) = json::get(f, "automation_lanes"@) {
            lemma_lanes_in_store(v, o.1);
            clip_content::lemma_keeps_chain(st, o.1, r.1);
            let list = Tree::List(clip_content::lanes_drained(v, o.1).0);
            json::law_with(f, "automation_lanes"@, list, "clips"@);
            assert(r.0.at("clips"@) == o.0.at("clips"@));
            lemma_owner_stays(o.0, t, true, o.1, r.1);
            assert forall|key: Seq<char>| key != "clips"@ && key != "automation_lanes"@ implies #[trigger] r.0.at(key)
                == t.at(key) by {
                json::law_with(f, "automation_lanes"@, list, key);
                assert(o.0.at(key) == t.at(key));
            }
        } else {
            assert(r == o);
        }
    }
}

proof fn lemma_tracks_in_store(v: Seq<Tree>, st: Store)
    ensures
        ({
            let r = clip_content::tracks_drained(v, st);
            &&& r.0.len() == v.len()
            &&& forall|i: int| 0 <= i < v.len() ==> is_track_in_store(#[trigger] r.0[i], v[i], r.1)
            &&& clip_content::keeps(st, r.1)
        }),
    decreases v.len(),
{
    if v.len() > 0 {
        let front = v.drop_last();
        lemma_tracks_in_store(front, st);
        let before = clip_content::tracks_drained(front, st);
        let r = clip_content::tracks_drained(v, st);
        lemma_track_in_store(v.last(), before.1);
        clip_content::lemma_keeps_chain(st, before.1, r.1);
        assert forall|i: int| 0 <= i < v.len() implies is_track_in_store(#[trigger] r.0[i], v[i], r.1) by {
            if i < front.len() {
                assert(r.0[i] == before.0[i]);
                assert(front[i] == v[i]);
                lemma_owner_stays(before.0[i], front[i], true, before.1, r.1);
                lemma_lanes_stay(
                    migration_laws::items(before.0[i].at("automation_lanes"@)),
                    migration_laws::items(front[i].at("automation_lanes"@)),
                    before.1,
                    r.1,
                );
            }
        }
    }
}

/// The store that a song carries.
pub open spec fn store_of(song: Tree) -> Store {
    Store {
        counter: match song.at("next_content_id"@) {
            Some(Tree::Number(Number::Unsigned(n))) => n,
            _ => 0,
        },
        contents: match song.at("clip_contents"@) {
            Some(Tree::Object(f)) => f,
            _ => Seq::empty(),
        },
        names: match song.at("clip_content_names"@) {
            Some(Tree::Object(f)) => f,
            _ => Seq::empty(),
        },
    }
}

/// The names and notes of every clip of a song, on its tracks, on their lanes and on its
/// own, are in its store then, under the ids of their contents. Nothing else changes.
pub proof fn law_clips_go_to_the_store(song: Tree)
    requires
        song is Object,
    ensures
        ({
            let now = clip_content::drained_song(song);
            let was_tracks = migration_laws::items(song.at("tracks"@));
            let now_tracks = migration_laws::items(now.at("tracks"@));
            &&& now_tracks.len() == was_tracks.len()
            &&& forall|i: int|
                0 <= i < was_tracks.len() ==> is_track_in_store(#[trigger] now_tracks[i], was_tracks[i], store_of(now))
            &&& are_lanes_in_store(
                migration_laws::items(now.at("song_lanes"@)),
                migration_laws::items(song.at("song_lanes"@)),
                store_of(now),
            )
            &&& forall|key: Seq<char>|
                key != "tracks"@ && key != "song_lanes"@ && key != "clip_contents"@ && key != "clip_content_names"@ && key
                    != "next_content_id"@ ==> #[trigger] now.at(key) == song.at(key)
        }),
{
    clip_content::lemma_keys();
    let f = song->Object_0;
    let st = clip_content::first_store(f);
    let tracks = clip_content::tracks_at_drained(f, st);
    let lanes = clip_content::lanes_at_drained(tracks.0, "song_lanes"@, tracks.1);
    let now = clip_content::drained_song(song);
    let was_tracks = migration_laws::items(song.at("tracks"@));
    lemma_tracks_in_store(was_tracks, st);
    let v = migration_laws::items(song.at("song_lanes"@));
    if let Some(Tree::List(w)) = json::get(f, "tracks"@) {
        let list = Tree::List(clip_content::tracks_drained(w, st).0);
        json::law_with(f, "tracks"@, list, "song_lanes"@);
    } else {
        assert(tracks == (f, st));
        assert(was_tracks =~= Seq::<Tree>::empty());
    }
    assert(json::get(tracks.0, "song_lanes"@) == song.at("song_lanes"@));
    lemma_lanes_in_store(v, tracks.1);
    if let Some(Tree::List(w)) = json::get(tracks.0, "song_lanes"@) {
        let list = Tree::List(clip_content::lanes_drained(w, tracks.1).0);
        json::law_with(tracks.0, "song_lanes"@, list, "tracks"@);
    } else {
        assert(lanes == (tracks.0, tracks.1));
    }
    assert(clip_content::keeps(tracks.1, lanes.1));
    assert(now == Tree::Object(clip_content::with_store(lanes.0, lanes.1)));
    clip_content::lemma_with_store(lanes.0, lanes.1, "tracks"@);
    clip_content::lemma_with_store(lanes.0, lanes.1, "song_lanes"@);
    assert(store_of(now).names == lanes.1.names);
    assert(store_of(now).contents == lanes.1.contents);
    assert(clip_content::keeps(lanes.1, store_of(now)));
    clip_content::lemma_keeps_chain(tracks.1, lanes.1, store_of(now));
    let now_tracks = migration_laws::items(now.at("tracks"@));
    assert forall|i: int| 0 <= i < was_tracks.len() implies is_track_in_store(
        #[trigger] now_tracks[i],
        was_tracks[i],
        store_of(now),
    ) by {
        lemma_owner_stays(now_tracks[i], was_tracks[i], true, tracks.1, store_of(now));
        lemma_lanes_stay(
            migration_laws::items(now_tracks[i].at("automation_lanes"@)),
            migration_laws::items(was_tracks[i].at("automation_lanes"@)),
            tracks.1,
            store_of(now),
        );
    }
    lemma_lanes_stay(migration_laws::items(now.at("song_lanes"@)), v, lanes.1, store_of(now));
    assert forall|key: Seq<char>|
        key != "tracks"@ && key != "song_lanes"@ && key != "clip_contents"@ && key != "clip_content_names"@ && key
            != "next_content_id"@ implies #[trigger] now.at(key) == song.at(key) by {
        if let Some(Tree::List(w)) = json::get(f, "tracks"@) {
            json::law_with(f, "tracks"@, Tree::List(clip_content::tracks_drained(w, st).0), key);
        }
        if let Some(Tree::List(w)) = json::get(tracks.0, "song_lanes"@) {
            json::law_with(tracks.0, "song_lanes"@, Tree::List(clip_content::lanes_drained(w, tracks.1).0), key);
        }
        clip_content::lemma_with_store(lanes.0, lanes.1, key);
    }
}

} // verus!
