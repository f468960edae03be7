//! Reading project files of every age.
//!
//! A file is read into a document, the document is brought into the present
//! form step by step, and only then becomes a song. Each step leaves documents
//! alone that are in the present form already.

pub mod clip_content;
pub mod device_chains;
pub mod migration_laws;
pub mod native_laws;
pub mod native_migration;
pub mod pools;
pub mod sidechain;
pub mod song_steps;
pub mod step_laws;
pub mod tags;
pub mod vocal;

use crate::beat::Beat;
use crate::document;
use crate::document::read_document;
use crate::json;
use crate::json::{member_mut, Json, Number, Tree};
use crate::model::loop_region;
use crate::model::{LoopRegion, Song, SongModel};
use crate::text;
use crate::text::append_decimal;
use clip_content::migrate_legacy_clip_content;
use device_chains::migrate_legacy_device_chains;
use native_migration::migrate_strips_to_native;
use pools::{migrate_flat_ids_to_allocators, migrate_flat_media_to_pools};
use sidechain::migrate_legacy_sidechain_to_aux;
use song_steps::{migrate_per_event_mute_to_clip_mute, migrate_text_overlay_to_subtitle_device};
use tags::migrate_clip_content_add_tag;
use vocal::migrate_vocal_source_to_clips;
use vstd::prelude::*;
use vstd::string::*;

verus! {

/// The version that is written.
pub const CURRENT_VERSION: u32 = 39;

/// The oldest version that is read. Version 1 had another notion of time.
pub const MIN_LOADABLE_VERSION: u32 = 2;

/// Since this version a device shows the texts of a track.
pub const SUBTITLE_DEVICE_VERSION: u32 = 26;

/// Since this version clips are muted, not events.
pub const CLIP_MUTE_VERSION: u32 = 27;

/// Since this version contents name their type.
pub const CLIP_CONTENT_TAG_VERSION: u32 = 30;

/// Since this version the loop is not part of the song.
pub const LOOP_IN_VIEW_STATE_VERSION: u32 = 31;

// ---------------------------------------------------------------------------
// The song in the document
// ---------------------------------------------------------------------------

/// A song in the present form, but for the types of its contents.
pub open spec fn migrated_song(song: Tree, tone_bands: Seq<Seq<char>>) -> Tree {
    native_migration::native_song(
        pools::with_allocators(
            pools::with_media_pools(
                clip_content::drained_song(device_chains::chained_song(sidechain::lifted(song))),
            ),
        ),
        tone_bands,
    )
}

/// Brings the song of a document into the present form, but for the types of
/// its contents: these are told next, so that contents made here get one too.
/// `tone_bands` names the bands of the tone equaliser.
pub fn migrate_legacy_song(song: &mut Json, tone_bands: &Vec<String>)
    ensures
        final(song)@ == migrated_song(old(song)@, native_migration::band_names(tone_bands@)),
{
    migrate_legacy_sidechain_to_aux(song);
    migrate_legacy_device_chains(song);
    migrate_legacy_clip_content(song);
    migrate_flat_media_to_pools(song);
    migrate_flat_ids_to_allocators(song);
    migrate_strips_to_native(song, tone_bands);
}

// ---------------------------------------------------------------------------
// The document
// ---------------------------------------------------------------------------

/// The version that a document names; zero if it names none.
pub open spec fn document_version(doc: Tree) -> u64 {
    match doc.at("version"@) {
        Some(t) => match t.unsigned() {
            Some(n) => n,
            None => 0,
        },
        None => 0,
    }
}

/// The ends of the loop that the song of a document carries, if it carries
/// both.
pub open spec fn document_loop(doc: Tree) -> Option<(Number, Number)> {
    match doc.at("song"@) {
        Some(song) => match (song.at("loop_start_beat"@), song.at("loop_end_beat"@)) {
            (Some(Tree::Number(start)), Some(Tree::Number(end))) => Some((start, end)),
            _ => None,
        },
        None => None,
    }
}

/// The document with its song in the present form, but for the types of its
/// contents.
pub open spec fn document_with_song(doc: Tree, tone_bands: Seq<Seq<char>>) -> Tree {
    vocal::vocal_document(doc).map_at("song"@, |song: Tree| migrated_song(song, tone_bands))
}

/// The document in the present form.
pub open spec fn present_document(doc: Tree, tone_bands: Seq<Seq<char>>) -> Tree {
    let d = document_with_song(doc, tone_bands);
    if document_version(d) < CLIP_CONTENT_TAG_VERSION {
        tags::tagged_document(d)
    } else {
        d
    }
}

/// What a document tells before it becomes a song: its version, and the ends of
/// its loop if it is of a version in which that was part of the song.
pub open spec fn document_tells(doc: Tree, tone_bands: Seq<Seq<char>>) -> Prepared {
    let d = document_with_song(doc, tone_bands);
    Prepared {
        file_version: document_version(d),
        legacy_loop: if document_version(d) < LOOP_IN_VIEW_STATE_VERSION {
            document_loop(d)
        } else {
            None
        },
    }
}

/// What a document told before it became a song.
#[derive(Clone, Copy, Debug)]
pub struct Prepared {
    pub file_version: u64,
    /// The ends of the loop, for versions in which it was part of the song.
    pub legacy_loop: Option<(Number, Number)>,
}

/// Brings a document into the present form. What the song will not hold any
/// more is returned.
pub fn prepare_document(doc: &mut Json, tone_bands: &Vec<String>) -> (r: Prepared)
    ensures
        final(doc)@ == present_document(old(doc)@, native_migration::band_names(tone_bands@)),
        r == document_tells(old(doc)@, native_migration::band_names(tone_bands@)),
{
    let ghost bands = native_migration::band_names(tone_bands@);
    migrate_vocal_source_to_clips(doc);
    match doc {
        Json::Object(v) => {
            if let Some(song) = member_mut(v, "song") {
                migrate_legacy_song(song, tone_bands);
            }
        },
        _ => {},
    }
    assert(doc@ == document_with_song(old(doc)@, bands));
    let file_version: u64 = read_version(doc);
    let legacy_loop = if file_version < LOOP_IN_VIEW_STATE_VERSION as u64 {
        read_loop(doc)
    } else {
        None
    };
    if file_version < CLIP_CONTENT_TAG_VERSION as u64 {
        migrate_clip_content_add_tag(doc);
    }
    Prepared { file_version, legacy_loop }
}

/// Reads the text of a file into a document in the present form. What is wrong
/// with the text is told if it is none.
pub fn open_document(text: &str, tone_bands: &Vec<String>) -> (r: Result<(Json, Prepared), String>)
    ensures
        match document::parsed_text(text@) {
            Ok(doc) => r is Ok && (r->Ok_0).0@ == present_document(doc, native_migration::band_names(tone_bands@))
                && (r->Ok_0).1 == document_tells(doc, native_migration::band_names(tone_bands@)),
            Err(message) => r is Err && (r->Err_0)@ == message,
        },
{
    match read_document(text) {
        Ok(doc) => {
            let mut doc = doc;
            let told = prepare_document(&mut doc, tone_bands);
            Ok((doc, told))
        },
        Err(message) => Err(message),
    }
}

fn read_version(doc: &Json) -> (r: u64)
    ensures
        r == document_version(doc@),
{
    match doc.get("version") {
        Some(t) => match t.as_u64() {
            Some(n) => n,
            None => 0,
        },
        None => 0,
    }
}

fn read_loop(doc: &Json) -> (r: Option<(Number, Number)>)
    ensures
        r == document_loop(doc@),
{
    match doc.get("song") {
        Some(song) => match (song.get("loop_start_beat"), song.get("loop_end_beat")) {
            (Some(Json::Number(start)), Some(Json::Number(end))) => Some((*start, *end)),
            _ => None,
        },
        None => None,
    }
}

// ---------------------------------------------------------------------------
// Versions
// ---------------------------------------------------------------------------

/// Why a project file is not read.
#[derive(Clone, Copy, Debug, PartialEq, Eq, Structural)]
pub enum VersionError {
    /// A newer program wrote it.
    Newer { version: u32 },
    /// Its version is not supported any more.
    Retired { version: u32 },
}

/// Whether a version is read.
pub fn check_version(version: u32) -> (r: Result<(), VersionError>)
    ensures
        r == if version > CURRENT_VERSION {
            Err::<(), VersionError>(VersionError::Newer { version })
        } else if version < MIN_LOADABLE_VERSION {
            Err(VersionError::Retired { version })
        } else {
            Ok(())
        },
{
    if version > CURRENT_VERSION {
        Err(VersionError::Newer { version })
    } else if version < MIN_LOADABLE_VERSION {
        Err(VersionError::Retired { version })
    } else {
        Ok(())
    }
}

/// The text of a [`VersionError`] about the file at `path`.
pub open spec fn version_message(error: VersionError, path: Seq<char>) -> Seq<char> {
    match error {
        VersionError::Newer { version } => "project file "@ + path + " has version "@ + text::decimal(version as nat)
            + " newer than supported "@ + text::decimal(CURRENT_VERSION as nat),
        VersionError::Retired { version } => "project file "@ + path + " uses retired version "@ + text::decimal(
            version as nat,
        )
            + " (the row-based format predating version 2); re-create the project in the current free-time-note format."@,
    }
}

impl VersionError {
    /// What to tell the user about the file at `path`.
    pub fn message(&self, path: &str) -> (r: String)
        ensures
            r@ == version_message(*self, path@),
    {
        let mut out = String::new();
        out.append("project file ");
        out.append(path);
        match self {
            VersionError::Newer { version } => {
                out.append(" has version ");
                append_decimal(&mut out, *version as u64);
                out.append(" newer than supported ");
                append_decimal(&mut out, CURRENT_VERSION as u64);
            },
            VersionError::Retired { version } => {
                out.append(" uses retired version ");
                append_decimal(&mut out, *version as u64);
                out.append(
                    " (the row-based format predating version 2); re-create the project in the current free-time-note format.",
                );
            },
        }
        assert(out@ =~= version_message(*self, path@));
        out
    }
}

// ---------------------------------------------------------------------------
// The loop
// ---------------------------------------------------------------------------

/// The loop that a song once carried: off, as it was never stored as on. None
/// if it has no range.
pub open spec fn carried_loop(start: Beat, end: Beat) -> Option<LoopRegion> {
    let region = (LoopRegion { enabled: false, start_beat: start, end_beat: end }).sane();
    if region.has_range() {
        Some(region)
    } else {
        None
    }
}

/// The loop that a song once carried, see [`carried_loop`].
pub fn legacy_song_loop_region(start: Beat, end: Beat) -> (r: Option<LoopRegion>)
    ensures
        r == carried_loop(start, end),
{
    let mut region = LoopRegion { enabled: false, start_beat: start, end_beat: end };
    region.sanitize();
    if region.has_range() {
        Some(region)
    } else {
        None
    }
}

/// The loop of a project: that of the view if it has a range, else the one that
/// the song carried, else none. Both ends are on the timeline.
pub open spec fn resolved_loop(view: Option<LoopRegion>, carried: Option<LoopRegion>) -> LoopRegion {
    let own = match view {
        Some(region) => region,
        None => loop_region::no_loop(),
    };
    (if !own.has_range() && carried is Some {
        carried->0
    } else {
        own
    }).sane()
}

/// The loop of a project, see [`resolved_loop`].
pub fn resolve_loop_region(view: Option<LoopRegion>, carried: Option<LoopRegion>) -> (r: LoopRegion)
    ensures
        r == resolved_loop(view, carried),
{
    let mut region = match view {
        Some(region) => region,
        None => LoopRegion::default(),
    };
    if !region.has_range() {
        if let Some(carried) = carried {
            region = carried;
        }
    }
    region.sanitize();
    region
}

// ---------------------------------------------------------------------------
// The song
// ---------------------------------------------------------------------------

/// A song of version `version` in the present form.
pub open spec fn present_song(song: SongModel, version: u32) -> SongModel {
    let shown = if version < SUBTITLE_DEVICE_VERSION {
        song_steps::subtitled_song(song)
    } else {
        song
    };
    if version < CLIP_MUTE_VERSION {
        song_steps::clips_muted(shown)
    } else {
        shown
    }
}

/// Brings a song of version `version` into the present form. Each step is taken
/// for files of before the version that brought it, and for no other.
pub fn migrate_song(song: &mut Song, version: u32)
    ensures
        final(song)@ == present_song(old(song)@, version),
{
    if version < SUBTITLE_DEVICE_VERSION {
        migrate_text_overlay_to_subtitle_device(song);
    }
    if version < CLIP_MUTE_VERSION {
        migrate_per_event_mute_to_clip_mute(song);
    }
}

// ---------------------------------------------------------------------------
// Files
// ---------------------------------------------------------------------------

/// Where a file is written before it takes the place of `path`.
pub fn tmp_path(path: &str) -> (r: String)
    ensures
        r@ == path@ + ".tmp"@,
{
    let mut out = path.to_owned();
    out.append(".tmp");
    out
}

} // verus!
