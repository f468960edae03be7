//! The voice of a track, moved to its clips.
//!
//! A vocal track once carried the voice itself: `{"Vocal": {"speaker_id",
//! "style_name"}}`. Now the voice belongs to each clip and the track is only
//! marked `"Vocal"`.

use crate::json;
use crate::json::{has_member, member, member_mut, put_member, Field, Json, Member, Number, Tree};
use vstd::prelude::*;
use vstd::string::*;

verus! {

/// The voice that a track carries itself, if it is of the old form.
pub open spec fn track_voice(track: Tree) -> Option<Tree> {
    match track.at("source"@) {
        Some(source) => match source.at("Vocal"@) {
            Some(Tree::Object(f)) => Some(Tree::Object(f)),
            _ => None,
        },
        None => None,
    }
}

/// The speaker of a voice; zero if there is none.
pub open spec fn voice_speaker(voice: Tree) -> u32 {
    match voice.at("speaker_id"@) {
        Some(t) => match t.unsigned() {
            Some(n) => n as u32,
            None => 0,
        },
        None => 0,
    }
}

/// The style of a voice; empty if there is none.
pub open spec fn voice_style(voice: Tree) -> Seq<char> {
    match voice.at("style_name"@) {
        Some(Tree::Text(s)) => s,
        _ => Seq::empty(),
    }
}

/// A clip with a voice put on it. A clip that has a speaker already keeps it;
/// a speaker of zero and an empty style are not written.
pub open spec fn clip_with_voice(clip: Tree, speaker: u32, style: Seq<char>) -> Tree {
    match clip {
        Tree::Object(f) => if json::has_key(f, "speaker_id"@) {
            clip
        } else {
            let spoken = if speaker != 0 {
                json::with(f, "speaker_id"@, Tree::Number(Number::Unsigned(speaker as u64)))
            } else {
                f
            };
            Tree::Object(
                if style.len() > 0 {
                    json::with(spoken, "style_name"@, Tree::Text(style))
                } else {
                    spoken
                },
            )
        },
        _ => clip,
    }
}

/// A track in the present form: marked, its voice on its clips.
pub open spec fn vocal_track(track: Tree) -> Tree {
    match (track, track_voice(track)) {
        (Tree::Object(f), Some(voice)) => Tree::Object(json::with(f, "source"@, Tree::Text("Vocal"@))).map_at(
            "clips"@,
            |clips: Tree| clips_with_voice(clips, voice_speaker(voice), voice_style(voice)),
        ),
        _ => track,
    }
}

/// Clips with a voice put on each.
pub open spec fn clips_with_voice(clips: Tree, speaker: u32, style: Seq<char>) -> Tree {
    clips.map_elements(|clip: Tree| clip_with_voice(clip, speaker, style))
}

/// The tracks in the present form.
pub open spec fn vocal_tracks(tracks: Tree) -> Tree {
    tracks.map_elements(|t: Tree| vocal_track(t))
}

/// The song in the present form.
pub open spec fn vocal_song(song: Tree) -> Tree {
    song.map_at("tracks"@, |t: Tree| vocal_tracks(t))
}

/// The document in the present form.
pub open spec fn vocal_document(doc: Tree) -> Tree {
    doc.map_at("song"@, |s: Tree| vocal_song(s))
}

fn put_voice(clip: &mut Json, speaker: u32, style: &String)
    ensures
        final(clip)@ == clip_with_voice(old(clip)@, speaker, style@),
{
    match clip {
        Json::Object(v) => {
            if !has_member(v, "speaker_id") {
                if speaker != 0 {
                    put_member(v, "speaker_id", Json::unsigned(speaker as u64));
                }
                if !style.as_str().is_empty() {
                    put_member(v, "style_name", Json::Text(style.clone()));
                }
            }
        },
        _ => {},
    }
}

fn put_voices(clips: &mut Json, speaker: u32, style: &String)
    ensures
        final(clips)@ == clips_with_voice(old(clips)@, speaker, style@),
{
    match clips {
        Json::List(v) => {
            let ghost start = json::trees(v@);
            let mut i: usize = 0;
            while i < v.len()
                invariant
                    v@.len() == start.len(),
                    i <= v@.len(),
                    forall|k: int|
                        0 <= k < v@.len() ==> json::tree(#[trigger] v@[k]) == if k < i {
                            clip_with_voice(start[k], speaker, style@)
                        } else {
                            start[k]
                        },
                decreases v@.len() - i,
            {
                put_voice(&mut v[i], speaker, style);
                i += 1;
            }
            assert(json::trees(v@) =~= start.map_values(|clip: Tree| clip_with_voice(clip, speaker, style@)));
        },
        _ => {},
    }
}

/// The voice that a track carries itself: its speaker and its style.
fn old_voice(track: &Json) -> (r: Option<(u32, String)>)
    ensures
        match r {
            Some(voice) => track_voice(track@) is Some && voice.0 == voice_speaker(track_voice(track@)->0) && voice.1@
                == voice_style(track_voice(track@)->0),
            None => track_voice(track@) is None,
        },
{
    let source = match track.get("source") {
        Some(source) => source,
        None => {
            return None;
        },
    };
    let voice = match source.get("Vocal") {
        Some(voice) => voice,
        None => {
            return None;
        },
    };
    if !matches!(voice, Json::Object(_)) {
        return None;
    }
    let speaker: u32 = match voice.get("speaker_id") {
        Some(n) => match n.as_u64() {
            Some(n) => n as u32,
            None => 0,
        },
        None => 0,
    };
    let style = match voice.get("style_name") {
        Some(Json::Text(s)) => s.clone(),
        _ => String::new(),
    };
    Some((speaker, style))
}

fn migrate_track(track: &mut Json)
    ensures
        final(track)@ == vocal_track(old(track)@),
{
    let (speaker, style) = match old_voice(track) {
        Some(voice) => voice,
        None => {
            return;
        },
    };
    match track {
        Json::Object(v) => {
            put_member(v, "source", Json::text("Vocal"));
            if let Some(clips) = member_mut(v, "clips") {
                put_voices(clips, speaker, &style);
            }
        },
        _ => {},
    }
}

fn migrate_tracks(tracks: &mut Json)
    ensures
        final(tracks)@ == vocal_tracks(old(tracks)@),
{
    match tracks {
        Json::List(v) => {
            let ghost start = json::trees(v@);
            let mut i: usize = 0;
            while i < v.len()
                invariant
                    v@.len() == start.len(),
                    i <= v@.len(),
                    forall|k: int|
                        0 <= k < v@.len() ==> json::tree(#[trigger] v@[k]) == if k < i {
                            vocal_track(start[k])
                        } else {
                            start[k]
                        },
                decreases v@.len() - i,
            {
                migrate_track(&mut v[i]);
                i += 1;
            }
            assert(json::trees(v@) =~= start.map_values(|t: Tree| vocal_track(t)));
        },
        _ => {},
    }
}

fn migrate_song(song: &mut Json)
    ensures
        final(song)@ == vocal_song(old(song)@),
{
    match song {
        Json::Object(v) => {
            if let Some(tracks) = member_mut(v, "tracks") {
                migrate_tracks(tracks);
            }
        },
        _ => {},
    }
}

/// Moves the voice of every track of the old form to its clips. Documents
/// without such a track stay as they are.
pub fn migrate_vocal_source_to_clips(value: &mut Json)
    ensures
        final(value)@ == vocal_document(old(value)@),
{
    match value {
        Json::Object(v) => {
            if let Some(song) = member_mut(v, "song") {
                migrate_song(song);
            }
        },
        _ => {},
    }
}

/// A track in the present form stays as it is.
pub proof fn law_vocal_track_is_idempotent(track: Tree)
    ensures
        vocal_track(vocal_track(track)) == vocal_track(track),
{
    if let (Tree::Object(f), Some(voice)) = (track, track_voice(track)) {
        reveal_strlit("source");
        reveal_strlit("clips");
        assert("source"@.len() != "clips"@.len());
        let marked = json::with(f, "source"@, Tree::Text("Vocal"@));
        json::law_with(f, "source"@, Tree::Text("Vocal"@), "clips"@);
        if let Some(clips) = json::get(marked, "clips"@) {
            json::law_with(
                marked,
                "clips"@,
                clips_with_voice(clips, voice_speaker(voice), voice_style(voice)),
                "source"@,
            );
        }
        assert(vocal_track(track).at("source"@) == Some(Tree::Text("Vocal"@)));
    }
}

} // verus!
