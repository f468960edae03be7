//! Media and id counters, moved from the song into their own objects.

use crate::json;
use crate::json::{has_member, put_member, take_member, Field, Json, Member, Tree};
use vstd::prelude::*;
use vstd::string::*;

verus! {

/// The members of a song and those moved out of it.
pub struct Pooling {
    pub song: Seq<Field>,
    pub pool: Seq<Field>,
}

impl Pooling {
    /// One more member moved.
    pub open spec fn moved(self, key: Seq<char>) -> Pooling {
        match json::get(self.song, key) {
            Some(v) => Pooling { song: json::without(self.song, key), pool: json::with(self.pool, key, v) },
            None => self,
        }
    }

    /// The members of the song with the pool put in as `key`, if it holds
    /// anything.
    pub open spec fn closed_as(self, key: Seq<char>) -> Seq<Field> {
        if self.pool.len() > 0 {
            json::with(self.song, key, Tree::Object(self.pool))
        } else {
            self.song
        }
    }
}

/// The song with its media in a pool of their own.
pub open spec fn with_media_pools(song: Tree) -> Tree {
    match song {
        Tree::Object(f) => if json::has_key(f, "media"@) {
            song
        } else {
            Tree::Object(
                (Pooling { song: f, pool: Seq::empty() }).moved("audio_sources"@).moved("video_sources"@).moved(
                    "image_sources"@,
                ).closed_as("media"@),
            )
        },
        _ => song,
    }
}

/// The song with its id counters in an object of their own.
pub open spec fn with_allocators(song: Tree) -> Tree {
    match song {
        Tree::Object(f) => if json::has_key(f, "ids"@) {
            song
        } else {
            Tree::Object(
                (Pooling { song: f, pool: Seq::empty() }).moved("next_track_id"@).moved("next_device_id"@).moved(
                    "next_content_id"@,
                ).moved("next_audio_source_id"@).moved("next_video_source_id"@).moved("next_image_source_id"@).moved(
                    "next_song_lane_id"@,
                ).moved("next_section_id"@).moved("next_mod_source_id"@).closed_as("ids"@),
            )
        },
        _ => song,
    }
}

/// Moves the member with key `key`.
fn move_member(from: &mut Vec<Member>, to: &mut Vec<Member>, key: &str)
    ensures
        (Pooling { song: json::fields(final(from)@), pool: json::fields(final(to)@) }) == (Pooling {
            song: json::fields(old(from)@),
            pool: json::fields(old(to)@),
        }).moved(key@),
{
    match take_member(from, key) {
        Some(v) => put_member(to, key, v),
        None => {
            proof {
                json::law_without(json::fields(old(from)@), key@, key@);
            }
        },
    }
}

/// Puts the pool into the song as `key`, if it holds anything.
fn close_pool(song: &mut Vec<Member>, pool: Vec<Member>, key: &str)
    ensures
        json::fields(final(song)@) == (Pooling {
            song: json::fields(old(song)@),
            pool: json::fields(pool@),
        }).closed_as(key@),
{
    if pool.len() > 0 {
        put_member(song, key, Json::Object(pool));
    }
}

/// Moves the media of a song from its top level into `media`. A song that has
/// `media` is in the present form.
pub fn migrate_flat_media_to_pools(song: &mut Json)
    ensures
        final(song)@ == with_media_pools(old(song)@),
{
    match song {
        Json::Object(v) => {
            if !has_member(v, "media") {
                let mut pool: Vec<Member> = Vec::new();
                assert(json::fields(pool@) =~= Seq::<Field>::empty());
                move_member(v, &mut pool, "audio_sources");
                move_member(v, &mut pool, "video_sources");
                move_member(v, &mut pool, "image_sources");
                close_pool(v, pool, "media");
            }
        },
        _ => {},
    }
}

/// Moves the id counters of a song from its top level into `ids`. A song that
/// has `ids` is in the present form.
pub fn migrate_flat_ids_to_allocators(song: &mut Json)
    ensures
        final(song)@ == with_allocators(old(song)@),
{
    match song {
        Json::Object(v) => {
            if !has_member(v, "ids") {
                let mut pool: Vec<Member> = Vec::new();
                assert(json::fields(pool@) =~= Seq::<Field>::empty());
                move_member(v, &mut pool, "next_track_id");
                move_member(v, &mut pool, "next_device_id");
                move_member(v, &mut pool, "next_content_id");
                move_member(v, &mut pool, "next_audio_source_id");
                move_member(v, &mut pool, "next_video_source_id");
                move_member(v, &mut pool, "next_image_source_id");
                move_member(v, &mut pool, "next_song_lane_id");
                move_member(v, &mut pool, "next_section_id");
                move_member(v, &mut pool, "next_mod_source_id");
                close_pool(v, pool, "ids");
            }
        },
        _ => {},
    }
}

/// A song with pools is in the present form, and so pooling twice is pooling
/// once.
pub proof fn law_pooling_is_idempotent(song: Tree)
    ensures
        with_media_pools(with_media_pools(song)) == with_media_pools(song),
        with_allocators(with_allocators(song)) == with_allocators(song),
{
    if let Tree::Object(f) = song {
        let start = Pooling { song: f, pool: Seq::empty() };
        let m1 = start.moved("audio_sources"@);
        let m2 = m1.moved("video_sources"@);
        let m3 = m2.moved("image_sources"@);
        lemma_moved(start, "audio_sources"@);
        lemma_moved(m1, "video_sources"@);
        lemma_moved(m2, "image_sources"@);
        json::law_with(m3.song, "media"@, Tree::Object(m3.pool), "media"@);
        let a1 = start.moved("next_track_id"@);
        let a2 = a1.moved("next_device_id"@);
        let a3 = a2.moved("next_content_id"@);
        let a4 = a3.moved("next_audio_source_id"@);
        let a5 = a4.moved("next_video_source_id"@);
        let a6 = a5.moved("next_image_source_id"@);
        let a7 = a6.moved("next_song_lane_id"@);
        let a8 = a7.moved("next_section_id"@);
        let a9 = a8.moved("next_mod_source_id"@);
        lemma_moved(start, "next_track_id"@);
        lemma_moved(a1, "next_device_id"@);
        lemma_moved(a2, "next_content_id"@);
        lemma_moved(a3, "next_audio_source_id"@);
        lemma_moved(a4, "next_video_source_id"@);
        lemma_moved(a5, "next_image_source_id"@);
        lemma_moved(a6, "next_song_lane_id"@);
        lemma_moved(a7, "next_section_id"@);
        lemma_moved(a8, "next_mod_source_id"@);
        json::law_with(a9.song, "ids"@, Tree::Object(a9.pool), "ids"@);
    }
}

/// Moving a member either fills the pool or changes nothing.
proof fn lemma_moved(p: Pooling, key: Seq<char>)
    ensures
        p.moved(key) == p || p.moved(key).pool.len() > 0,
        p.pool.len() <= p.moved(key).pool.len(),
{
    json::lemma_key_place(p.pool, key, 0);
}

} // verus!
