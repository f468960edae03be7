//! Steps on the song itself, behind the document.
//!
//! Texts were once shown whatever the track; now a device of the track shows
//! them. Events were once muted one by one to mute a clip; now the clip is.

use crate::model;
use crate::model::clip::ContentModel;
use crate::model::device;
use crate::model::song;
use crate::model::track_ids;
use crate::model::{
    Clip, ClipContent, ContentEvent, Device, DeviceModel, PluginInstance, PluginModel, Song, SongModel, Track, TrackModel,
};
use crate::plugin_db;
use crate::plugin_format::PluginFormat;
use crate::port_config::PortConfig;
use vstd::prelude::*;
use vstd::string::*;

verus! {

// ---------------------------------------------------------------------------
// Subtitles
// ---------------------------------------------------------------------------

/// Whether a content id names a text.
pub open spec fn is_text(contents: Seq<(u32, ContentModel)>, id: u32) -> bool {
    exists|i: int| 0 <= i < contents.len() && (#[trigger] contents[i]).0 == id && contents[i].1 is Text
}

/// Whether one of the clips shows a text.
pub open spec fn shows_text(clips: Seq<Clip>, contents: Seq<(u32, ContentModel)>) -> bool {
    exists|i: int| 0 <= i < clips.len() && is_text(contents, (#[trigger] clips[i]).content_id)
}

/// The device that shows the texts of its track.
pub open spec fn subtitle_device() -> DeviceModel {
    DeviceModel::Plugin(
        PluginModel {
            id: 0,
            plugin_id: plugin_db::SUBTITLE_ID@,
            format: PluginFormat::Builtin,
            bypassed: false,
            ports: PortConfig {
                has_note_input: false,
                has_note_output: false,
                has_audio_output: false,
                has_audio_input: false,
                has_video_input: true,
                has_video_output: true,
            },
            aux_inputs: Seq::empty(),
            aux_outputs: Seq::empty(),
        },
    )
}

/// A track whose texts are shown: one with texts has the device for it.
pub open spec fn subtitled(t: TrackModel, contents: Seq<(u32, ContentModel)>) -> TrackModel {
    if shows_text(t.clips, contents) && !track_ids::has_builtin_plugin(t.devices, plugin_db::SUBTITLE_ID@) {
        TrackModel { devices: t.devices.push(subtitle_device()), ..t }
    } else {
        t
    }
}

/// A song whose texts are shown.
pub open spec fn subtitled_song(s: SongModel) -> SongModel {
    SongModel { tracks: s.tracks.map_values(|t: TrackModel| subtitled(t, s.clip_contents)), ..s }
}

/// Whether a content id names a text.
fn names_text(contents: &Vec<(u32, ClipContent)>, id: u32) -> (r: bool)
    ensures
        r == is_text(song::content_models(contents@), id),
{
    let ghost all = song::content_models(contents@);
    let mut i: usize = 0;
    while i < contents.len()
        invariant
            all == song::content_models(contents@),
            i <= contents@.len(),
            forall|k: int| 0 <= k < i ==> !((#[trigger] all[k]).0 == id && all[k].1 is Text),
        decreases contents@.len() - i,
    {
        assert(all[i as int] == (contents@[i as int].0, contents@[i as int].1@));
        if contents[i].0 == id && matches!(contents[i].1, ClipContent::Text(_)) {
            assert(all[i as int].0 == id);
            return true;
        }
        i += 1;
    }
    false
}

/// Whether a track shows a text.
fn has_text_clip(clips: &Vec<Clip>, contents: &Vec<(u32, ClipContent)>) -> (r: bool)
    ensures
        r == shows_text(clips@, song::content_models(contents@)),
{
    let mut i: usize = 0;
    while i < clips.len()
        invariant
            i <= clips@.len(),
            forall|k: int|
                0 <= k < i ==> !is_text(song::content_models(contents@), (#[trigger] clips@[k]).content_id),
        decreases clips@.len() - i,
    {
        if names_text(contents, clips[i].content_id) {
            return true;
        }
        i += 1;
    }
    false
}

/// Gives every track with texts the device that shows them.
pub fn migrate_text_overlay_to_subtitle_device(song: &mut Song)
    ensures
        final(song)@ == subtitled_song(old(song)@),
{
    let ghost start = song@;
    let ghost contents = start.clip_contents;
    let mut i: usize = 0;
    while i < song.tracks.len()
        invariant
            start == old(song)@,
            contents == start.clip_contents,
            song.tracks@.len() == start.tracks.len(),
            i <= song.tracks@.len(),
            song@ == (SongModel { tracks: model::models(song.tracks@), ..start }),
            forall|k: int|
                0 <= k < start.tracks.len() ==> (#[trigger] song.tracks@[k])@ == if k < i {
                    subtitled(start.tracks[k], contents)
                } else {
                    start.tracks[k]
                },
        decreases song.tracks@.len() - i,
    {
        let ghost before = song.tracks@[i as int]@;
        assert(song@.clip_contents == contents);
        let shows = has_text_clip(&song.tracks[i].clips, &song.clip_contents) && !song.tracks[i].has_subtitle_device();
        if shows {
            let plugin = PluginInstance::with_ports(
                plugin_db::SUBTITLE_ID.to_owned(),
                PluginFormat::Builtin,
                PortConfig {
                    has_note_input: false,
                    has_note_output: false,
                    has_audio_output: false,
                    has_audio_input: false,
                    has_video_input: true,
                    has_video_output: true,
                },
            );
            let track = &mut song.tracks[i];
            let ghost devices = device::device_models(track.devices@);
            track.devices.push(Device::Plugin(plugin));
            assert(device::device_models(track.devices@) =~= devices.push(subtitle_device()));
            assert(track@ == subtitled(before, contents));
        }
        i += 1;
    }
    assert(song@.tracks =~= subtitled_song(start).tracks);
}

/// Every track has the device for its texts, so giving it twice is giving it
/// once.
pub proof fn law_subtitles_are_idempotent(s: SongModel)
    ensures
        subtitled_song(subtitled_song(s)) == subtitled_song(s),
{
    let once = subtitled_song(s);
    let twice = subtitled_song(once);
    assert forall|i: int| 0 <= i < s.tracks.len() implies twice.tracks[i] == once.tracks[i] by {
        let t = s.tracks[i];
        let u = subtitled(t, s.clip_contents);
        if u != t {
            let n = t.devices.len() as int;
            assert(u.devices[n] == subtitle_device());
            assert(track_ids::is_builtin_plugin(u.devices[n], plugin_db::SUBTITLE_ID@));
        }
    }
    assert(twice.tracks =~= once.tracks);
}

// ---------------------------------------------------------------------------
// Mutes
// ---------------------------------------------------------------------------

/// Whether one of the events is muted.
pub open spec fn any_muted(v: Seq<ContentEvent>) -> bool {
    exists|i: int| 0 <= i < v.len() && (#[trigger] v[i]).muted
}

/// Events of which none is muted.
pub open spec fn unmuted(v: Seq<ContentEvent>) -> Seq<ContentEvent> {
    v.map_values(|e: ContentEvent| ContentEvent { muted: false, ..e })
}

/// Whether an event of a content is muted. Notes and points have no say.
pub open spec fn has_muted_event(c: ContentModel) -> bool {
    match c {
        ContentModel::Audio(v) => any_muted(v),
        ContentModel::Image(v) => any_muted(v),
        ContentModel::Video(v) => any_muted(v),
        ContentModel::Text(v) => any_muted(v),
        ContentModel::Midi(_) => false,
        ContentModel::Automation(_) => false,
    }
}

/// A content of which no event is muted.
pub open spec fn unmuted_content(c: ContentModel) -> ContentModel {
    match c {
        ContentModel::Audio(v) => ContentModel::Audio(unmuted(v)),
        ContentModel::Image(v) => ContentModel::Image(unmuted(v)),
        ContentModel::Video(v) => ContentModel::Video(unmuted(v)),
        ContentModel::Text(v) => ContentModel::Text(unmuted(v)),
        ContentModel::Midi(_) => c,
        ContentModel::Automation(_) => c,
    }
}

/// Whether a content id names a content with a muted event.
pub open spec fn is_muted_content(contents: Seq<(u32, ContentModel)>, id: u32) -> bool {
    exists|i: int| 0 <= i < contents.len() && (#[trigger] contents[i]).0 == id && has_muted_event(contents[i].1)
}

/// A clip that is muted if an event of its content was.
pub open spec fn clip_muted(c: Clip, contents: Seq<(u32, ContentModel)>) -> Clip {
    if is_muted_content(contents, c.content_id) {
        Clip { muted: true, ..c }
    } else {
        c
    }
}

/// A song in which clips are muted, not events.
pub open spec fn clips_muted(s: SongModel) -> SongModel {
    SongModel {
        tracks: s.tracks.map_values(
            |t: TrackModel| TrackModel {
                clips: t.clips.map_values(|c: Clip| clip_muted(c, s.clip_contents)),
                ..t
            },
        ),
        clip_contents: s.clip_contents.map_values(|c: (u32, ContentModel)| (c.0, unmuted_content(c.1))),
        ..s
    }
}

/// Unmutes events, and tells whether one was muted.
fn unmute(v: &mut Vec<ContentEvent>) -> (r: bool)
    ensures
        r == any_muted(old(v)@),
        final(v)@ == unmuted(old(v)@),
{
    let ghost start = v@;
    let mut any = false;
    let mut i: usize = 0;
    while i < v.len()
        invariant
            start == old(v)@,
            v@.len() == start.len(),
            i <= v@.len(),
            forall|k: int| i <= k < start.len() ==> #[trigger] v@[k] == start[k],
            forall|k: int| 0 <= k < i ==> #[trigger] v@[k] == (ContentEvent { muted: false, ..start[k] }),
            any ==> any_muted(start),
            !any ==> forall|k: int| 0 <= k < i ==> !(#[trigger] start[k]).muted,
        decreases v@.len() - i,
    {
        let mut e = v[i];
        assert(e == start[i as int]);
        if e.muted {
            any = true;
        }
        e.muted = false;
        v.set(i, e);
        i += 1;
    }
    assert(v@ =~= unmuted(start));
    any
}

/// Unmutes the events of a content, and tells whether one was muted.
fn unmute_content(c: &mut ClipContent) -> (r: bool)
    ensures
        r == has_muted_event(old(c)@),
        final(c)@ == unmuted_content(old(c)@),
{
    match c {
        ClipContent::Audio(v) => unmute(v),
        ClipContent::Image(v) => unmute(v),
        ClipContent::Video(v) => unmute(v),
        ClipContent::Text(v) => unmute(v),
        ClipContent::Midi(_) => false,
        ClipContent::Automation(_) => false,
    }
}

/// Whether an id is among ids.
fn holds(ids: &Vec<u32>, id: u32) -> (r: bool)
    ensures
        r == ids@.contains(id),
{
    let mut i: usize = 0;
    while i < ids.len()
        invariant
            i <= ids@.len(),
            forall|k: int| 0 <= k < i ==> #[trigger] ids@[k] != id,
        decreases ids@.len() - i,
    {
        if ids[i] == id {
            return true;
        }
        i += 1;
    }
    false
}

/// Unmutes the events of all contents, and lists the ids of those that had a
/// muted one.
fn unmute_contents(v: &mut Vec<(u32, ClipContent)>) -> (r: Vec<u32>)
    ensures
        song::content_models(final(v)@) == song::content_models(old(v)@).map_values(
            |c: (u32, ContentModel)| (c.0, unmuted_content(c.1)),
        ),
        forall|id: u32| r@.contains(id) == #[trigger] is_muted_content(song::content_models(old(v)@), id),
{
    let ghost start = song::content_models(v@);
    let mut r: Vec<u32> = Vec::new();
    let mut i: usize = 0;
    while i < v.len()
        invariant
            v@.len() == start.len(),
            i <= v@.len(),
            forall|k: int| i <= k < start.len() ==> ((#[trigger] v@[k]).0, v@[k].1@) == start[k],
            forall|k: int|
                0 <= k < i ==> ((#[trigger] v@[k]).0, v@[k].1@) == (start[k].0, unmuted_content(start[k].1)),
            forall|k: int| 0 <= k < r@.len() ==> is_muted_content(start, #[trigger] r@[k]),
            forall|k: int|
                0 <= k < i && has_muted_event((#[trigger] start[k]).1) ==> r@.contains(start[k].0),
        decreases v@.len() - i,
    {
        let ghost known = r@;
        let id: u32 = v[i].0;
        assert(start[i as int] == (v@[i as int].0, v@[i as int].1@));
        let content = &mut v[i].1;
        let was_muted = unmute_content(content);
        if was_muted {
            assert(is_muted_content(start, id)) by {
                assert(start[i as int].0 == id);
            }
            r.push(id);
            proof {
                assert(r@[known.len() as int] == id);
                assert forall|k: int| 0 <= k < i + 1 && has_muted_event((#[trigger] start[k]).1) implies r@.contains(
                    start[k].0,
                ) by {
                    if k < i {
                        assert(known.contains(start[k].0));
                        let j = choose|j: int| 0 <= j < known.len() && known[j] == start[k].0;
                        assert(r@[j] == start[k].0);
                    }
                }
            }
        }
        i += 1;
    }
    proof {
        assert(song::content_models(v@) =~= start.map_values(
            |c: (u32, ContentModel)| (c.0, unmuted_content(c.1)),
        ));
        assert forall|id: u32| r@.contains(id) == #[trigger] is_muted_content(start, id) by {
            if is_muted_content(start, id) {
                let k = choose|k: int| 0 <= k < start.len() && (#[trigger] start[k]).0 == id && has_muted_event(start[k].1);
                assert(r@.contains(start[k].0));
            }
        }
    }
    r
}

/// Mutes the clips whose content is listed.
fn mute_clips(clips: &mut Vec<Clip>, ids: &Vec<u32>)
    ensures
        final(clips)@ == old(clips)@.map_values(
            |c: Clip|
                if ids@.contains(c.content_id) {
                    Clip { muted: true, ..c }
                } else {
                    c
                },
        ),
{
    let ghost start = clips@;
    let mut i: usize = 0;
    while i < clips.len()
        invariant
            clips@.len() == start.len(),
            i <= clips@.len(),
            forall|k: int| i <= k < start.len() ==> #[trigger] clips@[k] == start[k],
            forall|k: int|
                0 <= k < i ==> #[trigger] clips@[k] == if ids@.contains(start[k].content_id) {
                    (Clip { muted: true, ..start[k] })
                } else {
                    start[k]
                },
        decreases clips@.len() - i,
    {
        let mut c = clips[i];
        assert(c == start[i as int]);
        if holds(ids, c.content_id) {
            c.muted = true;
            clips.set(i, c);
        }
        i += 1;
    }
    assert(clips@ =~= start.map_values(
        |c: Clip|
            if ids@.contains(c.content_id) {
                Clip { muted: true, ..c }
            } else {
                c
            },
    ));
}

/// Mutes the clips that have a muted event, and unmutes all events.
pub fn migrate_per_event_mute_to_clip_mute(song: &mut Song)
    ensures
        final(song)@ == clips_muted(old(song)@),
{
    let ghost start = song@;
    let ghost contents = start.clip_contents;
    let ids = unmute_contents(&mut song.clip_contents);
    let ghost between = song@;
    let mut i: usize = 0;
    while i < song.tracks.len()
        invariant
            between == (SongModel { clip_contents: between.clip_contents, ..start }),
            song.tracks@.len() == start.tracks.len(),
            i <= song.tracks@.len(),
            song@ == (SongModel { tracks: model::models(song.tracks@), ..between }),
            forall|id: u32| ids@.contains(id) == #[trigger] is_muted_content(contents, id),
            forall|k: int| i <= k < start.tracks.len() ==> (#[trigger] song.tracks@[k])@ == start.tracks[k],
            forall|k: int|
                0 <= k < i ==> (#[trigger] song.tracks@[k])@ == (TrackModel {
                    clips: start.tracks[k].clips.map_values(|c: Clip| clip_muted(c, contents)),
                    ..start.tracks[k]
                }),
        decreases song.tracks@.len() - i,
    {
        let ghost before = song.tracks@[i as int]@;
        assert(before == start.tracks[i as int]);
        let track = &mut song.tracks[i];
        mute_clips(&mut track.clips, &ids);
        proof {
            assert(track.clips@ =~= before.clips.map_values(|c: Clip| clip_muted(c, contents)));
        }
        i += 1;
    }
    assert(song@.tracks =~= clips_muted(start).tracks);
}

/// No event is muted any more, so moving the mutes twice is moving them once.
pub proof fn law_muting_clips_is_idempotent(s: SongModel)
    ensures
        clips_muted(clips_muted(s)) == clips_muted(s),
{
    let once = clips_muted(s);
    let twice = clips_muted(once);
    assert forall|i: int| 0 <= i < once.clip_contents.len() implies !has_muted_event(
        (#[trigger] once.clip_contents[i]).1,
    ) && unmuted_content(once.clip_contents[i].1) == once.clip_contents[i].1 by {
        let c = s.clip_contents[i].1;
        match c {
            ContentModel::Audio(v) => assert(unmuted(unmuted(v)) =~= unmuted(v)),
            ContentModel::Image(v) => assert(unmuted(unmuted(v)) =~= unmuted(v)),
            ContentModel::Video(v) => assert(unmuted(unmuted(v)) =~= unmuted(v)),
            ContentModel::Text(v) => assert(unmuted(unmuted(v)) =~= unmuted(v)),
            _ => {},
        }
    }
    assert(twice.clip_contents =~= once.clip_contents);
    assert forall|i: int| 0 <= i < s.tracks.len() implies twice.tracks[i] == once.tracks[i] by {
        let t = once.tracks[i];
        assert forall|k: int| 0 <= k < t.clips.len() implies clip_muted(#[trigger] t.clips[k], once.clip_contents)
            == t.clips[k] by {
            assert(!is_muted_content(once.clip_contents, t.clips[k].content_id));
        }
        assert(twice.tracks[i].clips =~= t.clips);
    }
    assert(twice.tracks =~= once.tracks);
}

/// Moving the mutes keeps every content under its id.
pub proof fn law_muting_clips_keeps_contents_once(song: SongModel)
    requires
        song.contents_once(),
    ensures
        clips_muted(song).contents_once(),
{
    let after = clips_muted(song);
    assert forall|i: int, j: int| 0 <= i < j < after.clip_contents.len() implies (#[trigger] after.clip_contents[i]).0 != (
    #[trigger] after.clip_contents[j]).0 by {
        assert(after.clip_contents[i].0 == song.clip_contents[i].0);
        assert(after.clip_contents[j].0 == song.clip_contents[j].0);
    }
}

} // verus!
