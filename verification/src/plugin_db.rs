//! The plugins that are known, found by id.
//!
//! Projects name a plugin by its id, never by its path, so that they open
//! wherever the plugin is installed. The plugins that are built in are not
//! stored: the code is where they are defined.

use crate::model;
use crate::plugin_format::PluginFormat;
use crate::text::same_text;
use vstd::hash_map::StringHashMap;
use crate::model::time_laws;
use vstd::prelude::*;
use vstd::string::*;

verus! {

/// The version that the built-in plugins carry.
pub const BUILTIN_VERSION: &'static str = "0.1.0";

/// The tag of a plugin that supports random access to audio.
pub const CLAP_FEATURE_ARA_SUPPORTED: &'static str = "ara:supported";

/// The tag of a plugin that cannot do without random access to audio.
pub const CLAP_FEATURE_ARA_REQUIRED: &'static str = "ara:required";

/// The version of the port probe. A database probed by an older one is probed
/// again.
pub const PORT_PROBE_VERSION: u32 = 4;

/// The built-in instrument that stays silent.
pub const BUILTIN_ID_SILENCE: &'static str = "builtin://daw_01.silence";

/// The built-in singer.
pub const BUILTIN_ID_VOICEVOX: &'static str = "builtin://daw_01.voicevox";

/// The id that stands for a parallel rack where a plugin is picked.
pub const PARALLEL_PICKER_ID: &'static str = "builtin://daw_01.parallel";

/// The ids that stand for native devices where a plugin is picked.
pub const NATIVE_COMP_PICKER_ID: &'static str = "builtin://daw_01.native.comp";

pub const NATIVE_EQ_PICKER_ID: &'static str = "builtin://daw_01.native.eq";

pub const NATIVE_BUS_COMP_PICKER_ID: &'static str = "builtin://daw_01.native.bus_comp";

pub const NATIVE_TONE_EQ_PICKER_ID: &'static str = "builtin://daw_01.native.tone_eq";

pub const NATIVE_REVERB_PICKER_ID: &'static str = "builtin://daw_01.native.reverb";

pub const NATIVE_DELAY_PICKER_ID: &'static str = "builtin://daw_01.native.delay";

/// The built-in device that shows the texts of its track. Nothing is rendered
/// by it: its presence is what counts.
pub const SUBTITLE_ID: &'static str = "builtin.video.subtitle";

/// A plugin that is known.
#[derive(Debug)]
pub struct PluginEntry {
    /// Stable over installations.
    pub id: String,
    pub format: PluginFormat,
    pub name: String,
    pub vendor: String,
    pub version: String,
    pub features: Vec<String>,
    /// Where the binary is; for built-in plugins, their id.
    pub path: String,
    /// The place within the binary, which may hold several plugins.
    pub descriptor_index: u32,
    pub has_note_input: bool,
    pub has_note_output: bool,
    pub has_audio_output: bool,
    pub has_audio_input: bool,
    pub has_video_input: bool,
    pub has_video_output: bool,
}

/// The model of an entry.
#[verifier::ext_equal]
pub struct EntryModel {
    pub id: Seq<char>,
    pub format: PluginFormat,
    pub name: Seq<char>,
    pub vendor: Seq<char>,
    pub version: Seq<char>,
    pub features: Seq<Seq<char>>,
    pub path: Seq<char>,
    pub descriptor_index: u32,
    pub has_note_input: bool,
    pub has_note_output: bool,
    pub has_audio_output: bool,
    pub has_audio_input: bool,
    pub has_video_input: bool,
    pub has_video_output: bool,
}

/// The characters of texts.
pub open spec fn texts(v: Seq<String>) -> Seq<Seq<char>> {
    Seq::new(v.len(), |i: int| v[i]@)
}

impl View for PluginEntry {
    type V = EntryModel;

    open spec fn view(&self) -> EntryModel {
        EntryModel {
            id: self.id@,
            format: self.format,
            name: self.name@,
            vendor: self.vendor@,
            version: self.version@,
            features: texts(self.features@),
            path: self.path@,
            descriptor_index: self.descriptor_index,
            has_note_input: self.has_note_input,
            has_note_output: self.has_note_output,
            has_audio_output: self.has_audio_output,
            has_audio_input: self.has_audio_input,
            has_video_input: self.has_video_input,
            has_video_output: self.has_video_output,
        }
    }
}

impl Clone for PluginEntry {
    fn clone(&self) -> (r: PluginEntry)
        ensures
            r@ == self@,
    {
        let mut features: Vec<String> = Vec::new();
        let mut i: usize = 0;
        while i < self.features.len()
            invariant
                i <= self.features@.len(),
                features@.len() == i,
                forall|k: int| 0 <= k < i ==> (#[trigger] features@[k])@ == self.features@[k]@,
            decreases self.features@.len() - i,
        {
            features.push(self.features[i].clone());
            i += 1;
        }
        let r = PluginEntry {
            id: self.id.clone(),
            format: self.format,
            name: self.name.clone(),
            vendor: self.vendor.clone(),
            version: self.version.clone(),
            features,
            path: self.path.clone(),
            descriptor_index: self.descriptor_index,
            has_note_input: self.has_note_input,
            has_note_output: self.has_note_output,
            has_audio_output: self.has_audio_output,
            has_audio_input: self.has_audio_input,
            has_video_input: self.has_video_input,
            has_video_output: self.has_video_output,
        };
        assert(r@ =~= self@);
        r
    }
}

/// Whether one of the features is `tag`.
fn has_feature(features: &Vec<String>, tag: &str) -> (r: bool)
    ensures
        r == texts(features@).contains(tag@),
{
    let ghost all = texts(features@);
    let mut i: usize = 0;
    while i < features.len()
        invariant
            all == texts(features@),
            i <= features@.len(),
            forall|k: int| 0 <= k < i ==> #[trigger] all[k] != tag@,
        decreases features@.len() - i,
    {
        assert(all[i as int] == features@[i as int]@);
        if same_text(features[i].as_str(), tag) {
            return true;
        }
        i += 1;
    }
    false
}

impl PluginEntry {
    /// Whether the plugin supports random access to audio: it has one of the two
    /// tags.
    pub fn is_ara(&self) -> (r: bool)
        ensures
            r == (self@.features.contains(CLAP_FEATURE_ARA_SUPPORTED@) || self@.features.contains(
                CLAP_FEATURE_ARA_REQUIRED@,
            )),
    {
        has_feature(&self.features, CLAP_FEATURE_ARA_SUPPORTED) || has_feature(
            &self.features,
            CLAP_FEATURE_ARA_REQUIRED,
        )
    }

    /// Whether the plugin cannot do without random access to audio.
    pub fn ara_required(&self) -> (r: bool)
        ensures
            r == self@.features.contains(CLAP_FEATURE_ARA_REQUIRED@),
    {
        has_feature(&self.features, CLAP_FEATURE_ARA_REQUIRED)
    }
}

// ---------------------------------------------------------------------------
// Built-in plugins
// ---------------------------------------------------------------------------

/// A video effect that is built in.
#[derive(Debug)]
pub struct VideoFx {
    pub id: String,
    pub name: String,
    /// The tag of its category.
    pub category: String,
}

/// The model of a video effect.
#[verifier::ext_equal]
pub struct VideoFxModel {
    pub id: Seq<char>,
    pub name: Seq<char>,
    pub category: Seq<char>,
}

impl View for VideoFx {
    type V = VideoFxModel;

    open spec fn view(&self) -> VideoFxModel {
        VideoFxModel { id: self.id@, name: self.name@, category: self.category@ }
    }
}

/// A built-in instrument: notes in, audio out.
pub open spec fn instrument_entry(id: Seq<char>, name: Seq<char>, features: Seq<Seq<char>>) -> EntryModel {
    EntryModel {
        id,
        format: PluginFormat::Builtin,
        name,
        vendor: "daw_01"@,
        version: BUILTIN_VERSION@,
        features,
        path: id,
        descriptor_index: 0,
        has_note_input: true,
        has_note_output: false,
        has_audio_output: true,
        has_audio_input: false,
        has_video_input: false,
        has_video_output: false,
    }
}

/// A built-in video device: video in, video out, and nothing for the host.
pub open spec fn video_entry(id: Seq<char>, name: Seq<char>, features: Seq<Seq<char>>) -> EntryModel {
    EntryModel {
        id,
        format: PluginFormat::Builtin,
        name,
        vendor: "daw_01"@,
        version: BUILTIN_VERSION@,
        features,
        path: id,
        descriptor_index: 0,
        has_note_input: false,
        has_note_output: false,
        has_audio_output: false,
        has_audio_input: false,
        has_video_input: true,
        has_video_output: true,
    }
}

/// The entry of a video effect.
pub open spec fn video_fx_entry(fx: VideoFxModel) -> EntryModel {
    video_entry(fx.id, fx.name, seq!["video-effect"@, fx.category])
}

/// The three built-in plugins that are no video effects.
pub open spec fn fixed_builtins() -> Seq<EntryModel> {
    seq![
        instrument_entry(BUILTIN_ID_SILENCE@, "Silence (builtin)"@, seq!["instrument"@, "synthesizer"@]),
        instrument_entry(
            BUILTIN_ID_VOICEVOX@,
            "VOICEVOX (builtin)"@,
            seq!["instrument"@, "synthesizer"@, "vocal"@],
        ),
        video_entry(SUBTITLE_ID@, "字幕 (builtin)"@, seq!["video-overlay"@, "text"@]),
    ]
}

/// All built-in plugins: the fixed ones, then the video effects in order.
pub open spec fn builtins(catalog: Seq<VideoFxModel>) -> Seq<EntryModel> {
    fixed_builtins() + catalog.map_values(|fx: VideoFxModel| video_fx_entry(fx))
}

fn make_instrument(id: &str, name: &str, features: Vec<String>) -> (r: PluginEntry)
    ensures
        r@ == instrument_entry(id@, name@, texts(features@)),
{
    PluginEntry {
        id: id.to_owned(),
        format: PluginFormat::Builtin,
        name: name.to_owned(),
        vendor: "daw_01".to_owned(),
        version: BUILTIN_VERSION.to_owned(),
        features,
        path: id.to_owned(),
        descriptor_index: 0,
        has_note_input: true,
        has_note_output: false,
        has_audio_output: true,
        has_audio_input: false,
        has_video_input: false,
        has_video_output: false,
    }
}

fn make_video(id: &str, name: &str, features: Vec<String>) -> (r: PluginEntry)
    ensures
        r@ == video_entry(id@, name@, texts(features@)),
{
    PluginEntry {
        id: id.to_owned(),
        format: PluginFormat::Builtin,
        name: name.to_owned(),
        vendor: "daw_01".to_owned(),
        version: BUILTIN_VERSION.to_owned(),
        features,
        path: id.to_owned(),
        descriptor_index: 0,
        has_note_input: false,
        has_note_output: false,
        has_audio_output: false,
        has_audio_input: false,
        has_video_input: true,
        has_video_output: true,
    }
}

/// All built-in plugins, in the order in which they are offered: the fixed ones,
/// then the video effects of the catalog.
pub fn builtin_descriptors(catalog: &Vec<VideoFx>) -> (r: Vec<PluginEntry>)
    ensures
        model::models(r@) == builtins(model::models(catalog@)),
{
    let mut silence: Vec<String> = Vec::new();
    silence.push("instrument".to_owned());
    silence.push("synthesizer".to_owned());
    let mut vocal: Vec<String> = Vec::new();
    vocal.push("instrument".to_owned());
    vocal.push("synthesizer".to_owned());
    vocal.push("vocal".to_owned());
    let mut overlay: Vec<String> = Vec::new();
    overlay.push("video-overlay".to_owned());
    overlay.push("text".to_owned());
    assert(texts(silence@) =~= seq!["instrument"@, "synthesizer"@]);
    assert(texts(vocal@) =~= seq!["instrument"@, "synthesizer"@, "vocal"@]);
    assert(texts(overlay@) =~= seq!["video-overlay"@, "text"@]);
    let mut r: Vec<PluginEntry> = Vec::new();
    r.push(make_instrument(BUILTIN_ID_SILENCE, "Silence (builtin)", silence));
    r.push(make_instrument(BUILTIN_ID_VOICEVOX, "VOICEVOX (builtin)", vocal));
    r.push(make_video(SUBTITLE_ID, "字幕 (builtin)", overlay));
    let ghost fx = model::models(catalog@).map_values(|fx: VideoFxModel| video_fx_entry(fx));
    assert(model::models(r@) =~= fixed_builtins() + fx.take(0));
    let mut i: usize = 0;
    while i < catalog.len()
        invariant
            fx == model::models(catalog@).map_values(|fx: VideoFxModel| video_fx_entry(fx)),
            i <= catalog@.len(),
            model::models(r@) == fixed_builtins() + fx.take(i as int),
        decreases catalog@.len() - i,
    {
        let def = &catalog[i];
        let mut features: Vec<String> = Vec::new();
        features.push("video-effect".to_owned());
        features.push(def.category.clone());
        assert(texts(features@) =~= seq!["video-effect"@, def.category@]);
        let ghost before = model::models(r@);
        let entry = make_video(def.id.as_str(), def.name.as_str(), features);
        proof {
            assert(model::models(catalog@)[i as int] == def@);
            assert(fx[i as int] == entry@);
        }
        r.push(entry);
        proof {
            assert(model::models(r@) =~= before.push(entry@));
            assert(fx.take(i + 1) =~= fx.take(i as int).push(fx[i as int]));
            assert(model::models(r@) =~= fixed_builtins() + fx.take(i + 1));
        }
        i += 1;
    }
    assert(fx.take(i as int) =~= fx);
    r
}

// ---------------------------------------------------------------------------
// The database
// ---------------------------------------------------------------------------

/// The model of the database.
#[verifier::ext_equal]
pub struct DatabaseModel {
    pub entries: Seq<EntryModel>,
    pub scanned_at: Option<u64>,
    pub port_probe_version: u32,
}

/// The plugins that are known, with an index by id.
pub struct PluginDatabase {
    entries: Vec<PluginEntry>,
    /// When the plugins were last scanned for, in seconds.
    scanned_at: Option<u64>,
    port_probe_version: u32,
    /// The place of the first entry with an id.
    by_id: StringHashMap<usize>,
}

impl View for PluginDatabase {
    type V = DatabaseModel;

    closed spec fn view(&self) -> DatabaseModel {
        DatabaseModel {
            entries: model::models(self.entries@),
            scanned_at: self.scanned_at,
            port_probe_version: self.port_probe_version,
        }
    }
}

/// The first entry with an id, from `from` on.
pub open spec fn entry_from(entries: Seq<EntryModel>, id: Seq<char>, from: int) -> Option<EntryModel>
    decreases entries.len() - from,
{
    if from < 0 || from >= entries.len() {
        None
    } else if entries[from].id == id {
        Some(entries[from])
    } else {
        entry_from(entries, id, from + 1)
    }
}

/// The first entry with an id.
pub open spec fn entry_by_id(entries: Seq<EntryModel>, id: Seq<char>) -> Option<EntryModel> {
    entry_from(entries, id, 0)
}

/// The entries that are not built in.
pub open spec fn external(entries: Seq<EntryModel>) -> Seq<EntryModel>
    decreases entries.len(),
{
    if entries.len() == 0 {
        entries
    } else if entries.last().format == PluginFormat::Builtin {
        external(entries.drop_last())
    } else {
        external(entries.drop_last()).push(entries.last())
    }
}

/// The entries that have an id.
pub open spec fn named(entries: Seq<EntryModel>) -> Seq<EntryModel>
    decreases entries.len(),
{
    if entries.len() == 0 {
        entries
    } else if entries.last().id.len() == 0 {
        named(entries.drop_last())
    } else {
        named(entries.drop_last()).push(entries.last())
    }
}

/// The entries behind the built-in ones, which the code defines.
pub open spec fn with_builtins(entries: Seq<EntryModel>, catalog: Seq<VideoFxModel>) -> Seq<EntryModel> {
    builtins(catalog) + external(entries)
}

/// The index points at the first entry with each id.
spec fn indexes(by_id: Map<Seq<char>, usize>, entries: Seq<EntryModel>) -> bool {
    &&& forall|id: Seq<char>|
        #[trigger] by_id.contains_key(id) ==> by_id[id] < entries.len() && entries[by_id[id] as int].id == id
            && forall|k: int| 0 <= k < by_id[id] ==> (#[trigger] entries[k]).id != id
    &&& forall|k: int| 0 <= k < entries.len() ==> by_id.contains_key((#[trigger] entries[k]).id)
}

proof fn lemma_entry_from(entries: Seq<EntryModel>, id: Seq<char>, from: int, i: int)
    requires
        0 <= from <= i <= entries.len(),
        forall|k: int| from <= k < i ==> (#[trigger] entries[k]).id != id,
    ensures
        entry_from(entries, id, from) == entry_from(entries, id, i),
    decreases i - from,
{
    if from < i {
        lemma_entry_from(entries, id, from + 1, i);
    }
}

impl PluginDatabase {
    /// Whether the index agrees with the entries.
    pub closed spec fn valid(self) -> bool {
        indexes(self.by_id@, model::models(self.entries@))
    }

    /// A database of the given entries.
    pub fn new(entries: Vec<PluginEntry>, scanned_at: Option<u64>, port_probe_version: u32) -> (r: PluginDatabase)
        ensures
            r.valid(),
            r@ == (DatabaseModel { entries: model::models(entries@), scanned_at, port_probe_version }),
    {
        let mut db = PluginDatabase { entries, scanned_at, port_probe_version, by_id: StringHashMap::new() };
        db.rebuild_index();
        db
    }

    /// All entries.
    pub fn entries(&self) -> (r: &Vec<PluginEntry>)
        ensures
            model::models(r@) == self@.entries,
    {
        &self.entries
    }

    /// When the plugins were last scanned for.
    pub fn scanned_at(&self) -> (r: Option<u64>)
        ensures
            r == self@.scanned_at,
    {
        self.scanned_at
    }

    /// The version of the probe that told the ports.
    pub fn port_probe_version(&self) -> (r: u32)
        ensures
            r == self@.port_probe_version,
    {
        self.port_probe_version
    }

    /// Records the version of the probe that told the ports.
    pub fn set_port_probe_version(&mut self, version: u32)
        requires
            old(self).valid(),
        ensures
            final(self).valid(),
            final(self)@ == (DatabaseModel { port_probe_version: version, ..old(self)@ }),
    {
        self.port_probe_version = version;
    }

    /// Changes the entry at `index`, which may get another id. There is nothing
    /// to change beyond the entries.
    pub fn update_entry(&mut self, index: usize, f: impl FnOnce(&mut PluginEntry))
        requires
            old(self).valid(),
            forall|e: &mut PluginEntry|
                index < old(self)@.entries.len() && e@ == old(self)@.entries[index as int] ==> #[trigger] call_requires(
                    f,
                    (e,),
                ),
        ensures
            final(self).valid(),
            index >= old(self)@.entries.len() ==> final(self)@ == old(self)@,
            index < old(self)@.entries.len() ==> exists|e: &mut PluginEntry|
                e@ == old(self)@.entries[index as int] && #[trigger] call_ensures(f, (e,), ()) && final(self)@ == (
                DatabaseModel { entries: old(self)@.entries.update(index as int, final(e)@), ..old(self)@ }),
    {
        let ghost before = self@.entries;
        if index < self.entries.len() {
            let id_before = self.entries[index].id.clone();
            let entry = &mut self.entries[index];
            assert(entry@ == before[index as int]);
            f(entry);
            assert(self@.entries =~= before.update(index as int, self.entries@[index as int]@));
            if !same_text(self.entries[index].id.as_str(), id_before.as_str()) {
                self.rebuild_index();
            } else {
                proof {
                    let now = self@.entries;
                    assert forall|k: int| 0 <= k < now.len() implies (#[trigger] now[k]).id == before[k].id by {}
                    assert(indexes(self.by_id@, before));
                    assert forall|id: Seq<char>| #[trigger] self.by_id@.contains_key(id) implies self.by_id@[id]
                        < now.len() && now[self.by_id@[id] as int].id == id && forall|k: int|
                        0 <= k < self.by_id@[id] ==> (#[trigger] now[k]).id != id by {
                        assert forall|k: int| 0 <= k < self.by_id@[id] implies (#[trigger] now[k]).id != id by {
                            assert(before[k].id != id);
                        }
                    }
                    assert forall|k: int| 0 <= k < now.len() implies self.by_id@.contains_key((#[trigger] now[k]).id) by {
                        assert(self.by_id@.contains_key(before[k].id));
                    }
                }
            }
        }
    }

    /// The entry with id `id`: the first, if several have it.
    pub fn find_by_id(&self, id: &str) -> (r: Option<&PluginEntry>)
        requires
            self.valid(),
        ensures
            match r {
                Some(e) => entry_by_id(self@.entries, id@) == Some(e@),
                None => entry_by_id(self@.entries, id@) is None,
            },
    {
        let ghost all = self@.entries;
        match self.by_id.get(id) {
            Some(i) => {
                proof {
                    lemma_entry_from(all, id@, 0, *i as int);
                }
                Some(&self.entries[*i])
            },
            None => {
                proof {
                    assert forall|k: int| 0 <= k < all.len() implies (#[trigger] all[k]).id != id@ by {
                        assert(self.by_id@.contains_key(all[k].id));
                    }
                    lemma_entry_from(all, id@, 0, all.len() as int);
                }
                None
            },
        }
    }

    /// Makes the index agree with the entries.
    fn rebuild_index(&mut self)
        ensures
            final(self).valid(),
            final(self)@ == old(self)@,
    {
        let ghost all = self@.entries;
        self.by_id.clear();
        let mut i: usize = 0;
        while i < self.entries.len()
            invariant
                self@ == old(self)@,
                all == self@.entries,
                all == model::models(self.entries@),
                i <= self.entries@.len(),
                forall|id: Seq<char>|
                    #[trigger] self.by_id@.contains_key(id) ==> self.by_id@[id] < i && all[self.by_id@[id] as int].id
                        == id && forall|k: int| 0 <= k < self.by_id@[id] ==> (#[trigger] all[k]).id != id,
                forall|k: int| 0 <= k < i ==> self.by_id@.contains_key((#[trigger] all[k]).id),
            decreases self.entries@.len() - i,
        {
            assert(all[i as int] == self.entries@[i as int]@);
            let ghost before = self.by_id@;
            if !self.by_id.contains_key(self.entries[i].id.as_str()) {
                self.by_id.insert(self.entries[i].id.clone(), i);
                proof {
                    assert forall|k: int| 0 <= k < i implies (#[trigger] all[k]).id != all[i as int].id by {
                        assert(before.contains_key(all[k].id));
                    }
                }
            }
            i += 1;
        }
    }

    /// Whether the ports have to be probed again: an older probe told them, and
    /// there is a plugin that can be probed.
    pub fn needs_port_probe(&self) -> (r: bool)
        ensures
            r == (self@.port_probe_version < PORT_PROBE_VERSION && exists|i: int|
                0 <= i < self@.entries.len() && (#[trigger] self@.entries[i]).format != PluginFormat::Builtin),
    {
        if self.port_probe_version >= PORT_PROBE_VERSION {
            return false;
        }
        let ghost all = self@.entries;
        let mut i: usize = 0;
        while i < self.entries.len()
            invariant
                all == self@.entries,
                i <= self.entries@.len(),
                self.port_probe_version < PORT_PROBE_VERSION,
                forall|k: int| 0 <= k < i ==> (#[trigger] all[k]).format == PluginFormat::Builtin,
            decreases self.entries@.len() - i,
        {
            assert(all[i as int] == self.entries@[i as int]@);
            if matches!(self.entries[i].format, PluginFormat::Vst3 | PluginFormat::Clap) {
                return true;
            }
            i += 1;
        }
        false
    }

    /// Puts the built-in plugins in front of the others, with the video effects of
    /// the catalog, in place of any that are there.
    pub fn ensure_builtins(&mut self, catalog: &Vec<VideoFx>)
        requires
            old(self).valid(),
        ensures
            final(self).valid(),
            final(self)@ == (DatabaseModel {
                entries: with_builtins(old(self)@.entries, model::models(catalog@)),
                ..old(self)@
            }),
    {
        let ghost all = self@.entries;
        let ghost front = builtins(model::models(catalog@));
        let mut merged = builtin_descriptors(catalog);
        let mut taken: Vec<PluginEntry> = Vec::new();
        std::mem::swap(&mut taken, &mut self.entries);
        let ghost source = taken@;
        assert(model::models(source) =~= all);
        assert(all.take(0) =~= Seq::<EntryModel>::empty());
        assert(model::models(merged@) =~= front + external(all.take(0)));
        for entry in walk: taken
            invariant
                walk.seq() == source,
                all == model::models(source),
                model::models(merged@) == front + external(all.take(walk.index())),
        {
            let ghost i = walk.index();
            let ghost before = model::models(merged@);
            proof {
                assert(all[i] == source[i]@);
                assert(all.take(i + 1).drop_last() =~= all.take(i));
                assert(all.take(i + 1).last() == all[i]);
            }
            if entry.format != PluginFormat::Builtin {
                merged.push(entry);
                assert(model::models(merged@) =~= before.push(all[i]));
                assert(model::models(merged@) =~= front + external(all.take(i + 1)));
            }
        }
        assert(all.take(source.len() as int) =~= all);
        self.entries = merged;
        self.rebuild_index();
    }

    /// The entries to store: all but the built-in ones.
    pub fn persisted(&self) -> (r: Vec<PluginEntry>)
        ensures
            model::models(r@) == external(self@.entries),
    {
        let ghost all = self@.entries;
        let mut r: Vec<PluginEntry> = Vec::new();
        let mut i: usize = 0;
        assert(all.take(0) =~= Seq::<EntryModel>::empty());
        assert(model::models(r@) =~= Seq::<EntryModel>::empty());
        while i < self.entries.len()
            invariant
                all == self@.entries,
                i <= self.entries@.len(),
                model::models(r@) == external(all.take(i as int)),
            decreases self.entries@.len() - i,
        {
            let ghost before = model::models(r@);
            proof {
                assert(all[i as int] == self.entries@[i as int]@);
                assert(all.take(i + 1).drop_last() =~= all.take(i as int));
            }
            if self.entries[i].format != PluginFormat::Builtin {
                r.push(self.entries[i].clone());
                assert(model::models(r@) =~= before.push(all[i as int]));
            }
            i += 1;
        }
        assert(all.take(i as int) =~= all);
        r
    }

    /// A database of stored entries, ready for use: those without an id are
    /// dropped, and the built-in plugins are put in front, with the video effects
    /// of the catalog.
    pub fn restored(
        entries: Vec<PluginEntry>,
        scanned_at: Option<u64>,
        port_probe_version: u32,
        catalog: &Vec<VideoFx>,
    ) -> (r: PluginDatabase)
        ensures
            r.valid(),
            r@ == (DatabaseModel {
                entries: with_builtins(named(model::models(entries@)), model::models(catalog@)),
                scanned_at,
                port_probe_version,
            }),
    {
        let ghost all = model::models(entries@);
        let ghost source = entries@;
        let mut kept: Vec<PluginEntry> = Vec::new();
        assert(all.take(0) =~= Seq::<EntryModel>::empty());
        assert(model::models(kept@) =~= Seq::<EntryModel>::empty());
        for entry in walk: entries
            invariant
                walk.seq() == source,
                all == model::models(source),
                model::models(kept@) == named(all.take(walk.index())),
        {
            let ghost i = walk.index();
            let ghost before = model::models(kept@);
            proof {
                assert(all[i] == source[i]@);
                assert(all.take(i + 1).drop_last() =~= all.take(i));
                assert(all.take(i + 1).last() == all[i]);
            }
            if !entry.id.as_str().is_empty() {
                kept.push(entry);
                assert(model::models(kept@) =~= before.push(all[i]));
            }
        }
        assert(all.take(source.len() as int) =~= all);
        let mut db = PluginDatabase::new(kept, scanned_at, port_probe_version);
        db.ensure_builtins(catalog);
        db
    }
}

impl Default for PluginDatabase {
    /// A database without entries that was never scanned.
    fn default() -> (r: PluginDatabase)
        ensures
            r.valid(),
            r@ == (DatabaseModel { entries: Seq::empty(), scanned_at: None, port_probe_version: 0 }),
    {
        let r = PluginDatabase::new(Vec::new(), None, 0);
        assert(r@.entries =~= Seq::<EntryModel>::empty());
        r
    }
}

impl Clone for PluginDatabase {
    fn clone(&self) -> (r: PluginDatabase)
        ensures
            r.valid(),
            r@ == self@,
    {
        let mut entries: Vec<PluginEntry> = Vec::new();
        let mut i: usize = 0;
        while i < self.entries.len()
            invariant
                i <= self.entries@.len(),
                entries@.len() == i,
                forall|k: int| 0 <= k < i ==> (#[trigger] entries@[k])@ == self.entries@[k]@,
            decreases self.entries@.len() - i,
        {
            entries.push(self.entries[i].clone());
            i += 1;
        }
        assert(model::models(entries@) =~= model::models(self.entries@));
        PluginDatabase::new(entries, self.scanned_at, self.port_probe_version)
    }
}

// ---------------------------------------------------------------------------
// Laws
// ---------------------------------------------------------------------------

/// Putting the built-in plugins in twice is doing it once.
pub proof fn law_builtins_are_idempotent(entries: Seq<EntryModel>, catalog: Seq<VideoFxModel>)
    ensures
        with_builtins(with_builtins(entries, catalog), catalog) == with_builtins(entries, catalog),
{
    lemma_external_of_builtins(entries, catalog);
}

/// Storing a database and restoring it gives what it held, behind the built-in
/// plugins of the day and without entries that have no id.
pub proof fn law_storing_then_restoring(
    entries: Seq<EntryModel>,
    catalog: Seq<VideoFxModel>,
    later: Seq<VideoFxModel>,
)
    ensures
        with_builtins(named(external(with_builtins(entries, catalog))), later) == with_builtins(named(entries), later),
{
    lemma_external_of_builtins(entries, catalog);
    lemma_external_named(entries);
    lemma_external_twice(named(entries));
}

/// Every built-in plugin is found, whatever else there is.
pub proof fn law_builtins_are_found(entries: Seq<EntryModel>, catalog: Seq<VideoFxModel>)
    ensures
        entry_by_id(with_builtins(entries, catalog), BUILTIN_ID_SILENCE@) == Some(fixed_builtins()[0]),
        entry_by_id(with_builtins(entries, catalog), BUILTIN_ID_VOICEVOX@) == Some(fixed_builtins()[1]),
        entry_by_id(with_builtins(entries, catalog), SUBTITLE_ID@) == Some(fixed_builtins()[2]),
{
    let all = with_builtins(entries, catalog);
    reveal_strlit("builtin://daw_01.silence");
    reveal_strlit("builtin://daw_01.voicevox");
    reveal_strlit("builtin.video.subtitle");
    assert(BUILTIN_ID_SILENCE@.len() == 24);
    assert(BUILTIN_ID_VOICEVOX@.len() == 25);
    assert(SUBTITLE_ID@.len() == 22);
    assert(all[0] == fixed_builtins()[0]);
    assert(all[1] == fixed_builtins()[1]);
    assert(all[2] == fixed_builtins()[2]);
    lemma_entry_from(all, BUILTIN_ID_VOICEVOX@, 0, 1);
    lemma_entry_from(all, SUBTITLE_ID@, 0, 2);
}

/// Every video effect of the catalog is found, whose id no built-in plugin before
/// it has.
pub proof fn law_effects_are_found(entries: Seq<EntryModel>, catalog: Seq<VideoFxModel>, k: int)
    requires
        0 <= k < catalog.len(),
        forall|i: int| 0 <= i < fixed_builtins().len() ==> (#[trigger] fixed_builtins()[i]).id != catalog[k].id,
        forall|i: int| 0 <= i < k ==> (#[trigger] catalog[i]).id != catalog[k].id,
    ensures
        entry_by_id(with_builtins(entries, catalog), catalog[k].id) == Some(video_fx_entry(catalog[k])),
{
    let all = with_builtins(entries, catalog);
    let at = fixed_builtins().len() + k;
    assert forall|i: int| 0 <= i < at implies (#[trigger] all[i]).id != catalog[k].id by {
        if i < fixed_builtins().len() {
            assert(all[i] == fixed_builtins()[i]);
        } else {
            assert(all[i] == video_fx_entry(catalog[i - fixed_builtins().len()]));
        }
    }
    assert(all[at] == video_fx_entry(catalog[k]));
    lemma_entry_from(all, catalog[k].id, 0, at);
}

proof fn lemma_external_twice(s: Seq<EntryModel>)
    ensures
        external(external(s)) == external(s),
        external(s).len() <= s.len(),
    decreases s.len(),
{
    if s.len() > 0 {
        lemma_external_twice(s.drop_last());
        if s.last().format != PluginFormat::Builtin {
            assert(external(s).drop_last() =~= external(s.drop_last()));
        }
    }
}

proof fn lemma_external_add(a: Seq<EntryModel>, b: Seq<EntryModel>)
    ensures
        external(a + b) == external(a) + external(b),
    decreases b.len(),
{
    if b.len() == 0 {
        assert(a + b =~= a);
        assert(external(a) + b =~= external(a));
    } else {
        lemma_external_add(a, b.drop_last());
        assert((a + b).drop_last() =~= a + b.drop_last());
        assert((a + b).last() == b.last());
        assert(external(a + b) =~= external(a) + external(b));
    }
}

proof fn lemma_external_none(s: Seq<EntryModel>)
    requires
        forall|i: int| 0 <= i < s.len() ==> (#[trigger] s[i]).format == PluginFormat::Builtin,
    ensures
        external(s) == Seq::<EntryModel>::empty(),
    decreases s.len(),
{
    if s.len() > 0 {
        assert(s[s.len() - 1].format == PluginFormat::Builtin);
        lemma_external_none(s.drop_last());
    }
}

proof fn lemma_external_of_builtins(entries: Seq<EntryModel>, catalog: Seq<VideoFxModel>)
    ensures
        external(with_builtins(entries, catalog)) == external(entries),
{
    let front = builtins(catalog);
    lemma_external_add(front, external(entries));
    assert forall|i: int| 0 <= i < front.len() implies (#[trigger] front[i]).format == PluginFormat::Builtin by {
        if i >= 3 {
            assert(front[i] == video_fx_entry(catalog[i - 3]));
        }
    }
    lemma_external_none(front);
    lemma_external_twice(entries);
    assert(Seq::<EntryModel>::empty() + external(entries) =~= external(entries));
}

proof fn lemma_external_named(s: Seq<EntryModel>)
    ensures
        named(external(s)) == external(named(s)),
    decreases s.len(),
{
    if s.len() > 0 {
        lemma_external_named(s.drop_last());
        if s.last().format != PluginFormat::Builtin {
            assert(external(s).drop_last() =~= external(s.drop_last()));
        }
        if s.last().id.len() > 0 {
            assert(named(s).drop_last() =~= named(s.drop_last()));
        }
    }
}

proof fn lemma_external(entries: Seq<EntryModel>)
    ensures
        external(entries) == entries.filter(|e: EntryModel| e.format != PluginFormat::Builtin),
    decreases entries.len(),
{
    reveal(Seq::filter);
    if entries.len() > 0 {
        lemma_external(entries.drop_last());
    } else {
        assert(entries =~= entries.filter(|e: EntryModel| e.format != PluginFormat::Builtin));
    }
}

proof fn lemma_named(entries: Seq<EntryModel>)
    ensures
        named(entries) == entries.filter(|e: EntryModel| e.id.len() != 0),
    decreases entries.len(),
{
    reveal(Seq::filter);
    if entries.len() > 0 {
        lemma_named(entries.drop_last());
    } else {
        assert(entries =~= entries.filter(|e: EntryModel| e.id.len() != 0));
    }
}

/// Of the entries those that are built in go, and of stored ones those without an id; all
/// others stay, in order, behind what is built in.
pub proof fn law_what_was_found_stays(entries: Seq<EntryModel>, catalog: Seq<VideoFxModel>)
    ensures
        time_laws::is_what_is_left(external(entries), entries, |e: EntryModel| e.format == PluginFormat::Builtin),
        time_laws::is_what_is_left(named(entries), entries, |e: EntryModel| e.id.len() == 0),
        with_builtins(entries, catalog).skip(builtins(catalog).len() as int) == external(entries),
        builtins(catalog).len() == 3 + catalog.len(),
        forall|i: int|
            0 <= i < builtins(catalog).len() ==> (#[trigger] with_builtins(entries, catalog)[i]).format
                == PluginFormat::Builtin,
        forall|i: int|
            0 <= i < catalog.len() ==> {
                let e = with_builtins(entries, catalog)[3 + i];
                &&& e.id == (#[trigger] catalog[i]).id
                &&& e.name == catalog[i].name
                &&& e.features.contains(catalog[i].category)
                &&& e.has_video_input && e.has_video_output && !e.has_audio_output && !e.has_note_input
            },
{
    lemma_external(entries);
    lemma_named(entries);
    time_laws::lemma_filtered(
        entries,
        |e: EntryModel| e.format != PluginFormat::Builtin,
        |e: EntryModel| e.format == PluginFormat::Builtin,
    );
    time_laws::lemma_filtered(entries, |e: EntryModel| e.id.len() != 0, |e: EntryModel| e.id.len() == 0);
    assert(with_builtins(entries, catalog).skip(builtins(catalog).len() as int) =~= external(entries));
    assert forall|i: int| 0 <= i < catalog.len() implies ({
        let e = with_builtins(entries, catalog)[3 + i];
        &&& e.id == (#[trigger] catalog[i]).id
        &&& e.name == catalog[i].name
        &&& e.features.contains(catalog[i].category)
        &&& e.has_video_input && e.has_video_output && !e.has_audio_output && !e.has_note_input
    }) by {
        let e = with_builtins(entries, catalog)[3 + i];
        assert(e == video_fx_entry(catalog[i]));
        assert(e.features[1] == catalog[i].category);
    }
}

} // verus!
