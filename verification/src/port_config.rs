//! The ports of a plugin, the one source of what it can do.

use crate::text;
use crate::text::{range_is, split_words};
use vstd::prelude::*;
use vstd::string::*;

verus! {

/// Which ports a device has.
#[derive(Clone, Copy, Debug, PartialEq, Eq, Structural)]
pub struct PortConfig {
    /// Accepts notes.
    pub has_note_input: bool,
    /// Emits notes.
    pub has_note_output: bool,
    /// Emits audio.
    pub has_audio_output: bool,
    /// Accepts audio, that is, processes it. Tells an effect from an instrument.
    pub has_audio_input: bool,
    /// Accepts video frames.
    pub has_video_input: bool,
    /// Emits video frames.
    pub has_video_output: bool,
}

/// No port at all: the ports are not known yet.
pub open spec fn no_ports() -> PortConfig {
    PortConfig {
        has_note_input: false,
        has_note_output: false,
        has_audio_output: false,
        has_audio_input: false,
        has_video_input: false,
        has_video_output: false,
    }
}

impl Default for PortConfig {
    fn default() -> (r: PortConfig)
        ensures
            r == no_ports(),
    {
        PortConfig {
            has_note_input: false,
            has_note_output: false,
            has_audio_output: false,
            has_audio_input: false,
            has_video_input: false,
            has_video_output: false,
        }
    }
}

impl PortConfig {
    /// Whether this is a video device: those are drawn, not loaded by the host.
    pub fn is_video(&self) -> (r: bool)
        ensures
            r == (self.has_video_input || self.has_video_output),
    {
        self.has_video_input || self.has_video_output
    }

    /// Whether the ports are not known yet.
    pub fn is_unresolved(&self) -> (r: bool)
        ensures
            r == (*self == no_ports()),
    {
        *self == PortConfig::default()
    }

    /// The one rule for the ports a device gets: ports that are known are kept,
    /// whatever the database says; unknown ones come from the database; without
    /// an entry there they stay unknown.
    pub fn resolve(existing: PortConfig, from_db: Option<PortConfig>) -> (r: PortConfig)
        ensures
            existing != no_ports() ==> r == existing,
            existing == no_ports() && from_db is Some ==> r == from_db->0,
            existing == no_ports() && from_db is None ==> r == no_ports(),
    {
        if existing.is_unresolved() {
            match from_db {
                Some(ports) => ports,
                None => existing,
            }
        } else {
            existing
        }
    }
}

/// What probing a plugin told of its class.
#[derive(Clone, Copy, Debug, PartialEq, Eq, Structural)]
pub struct PluginProbe {
    pub ports: PortConfig,
    /// Has an editor that can be embedded in a window.
    pub has_embedded_gui: bool,
}

impl Default for PluginProbe {
    fn default() -> (r: PluginProbe)
        ensures
            r == (PluginProbe { ports: no_ports(), has_embedded_gui: false }),
    {
        PluginProbe { ports: PortConfig::default(), has_embedded_gui: false }
    }
}

/// The text of a truth value.
pub open spec fn truth_text(b: bool) -> Seq<char> {
    if b {
        "true"@
    } else {
        "false"@
    }
}

/// A key with its value.
pub open spec fn setting(key: Seq<char>, b: bool) -> Seq<char> {
    key + seq!['='] + truth_text(b)
}

/// What a probe told, key by key.
pub open spec fn settings(p: PluginProbe) -> Seq<Seq<char>> {
    seq![
        setting("note_in"@, p.ports.has_note_input),
        setting("note_out"@, p.ports.has_note_output),
        setting("audio_out"@, p.ports.has_audio_output),
        setting("audio_in"@, p.ports.has_audio_input),
        setting("video_in"@, p.ports.has_video_input),
        setting("video_out"@, p.ports.has_video_output),
        setting("embed_gui"@, p.has_embedded_gui),
    ]
}

/// The line that a probe prints.
pub open spec fn probe_line(p: PluginProbe) -> Seq<char> {
    text::joined(settings(p))
}

/// Where the key of a word ends: at its first equals sign.
pub open spec fn key_end(w: Seq<char>, from: int) -> Option<int>
    decreases w.len() - from,
{
    if from < 0 || from >= w.len() {
        None
    } else if w[from] == '=' {
        Some(from)
    } else {
        key_end(w, from + 1)
    }
}

/// The key of a word.
pub open spec fn word_key(w: Seq<char>) -> Seq<char> {
    w.take(key_end(w, 0)->0)
}

/// The truth value of a word, if it has a key and a value that reads.
pub open spec fn word_value(w: Seq<char>) -> Option<bool> {
    match key_end(w, 0) {
        Some(i) => if w.skip(i + 1) == "true"@ {
            Some(true)
        } else if w.skip(i + 1) == "false"@ {
            Some(false)
        } else {
            None
        },
        None => None,
    }
}

/// The value of a key: of the last word that has it.
pub open spec fn last_value(words: Seq<Seq<char>>, key: Seq<char>) -> Option<bool>
    decreases words.len(),
{
    if words.len() == 0 {
        None
    } else if word_key(words.last()) == key {
        word_value(words.last())
    } else {
        last_value(words.drop_last(), key)
    }
}

/// What a line tells: nothing, unless every word has a key and a truth value,
/// and every key is there. Keys come in any order, and others are ignored.
pub open spec fn read_line(line: Seq<char>) -> Option<PluginProbe> {
    let words = text::words(line);
    if exists|i: int| 0 <= i < words.len() && word_value(#[trigger] words[i]) is None {
        None
    } else {
        match (
            last_value(words, "note_in"@),
            last_value(words, "note_out"@),
            last_value(words, "audio_out"@),
            last_value(words, "audio_in"@),
            last_value(words, "video_in"@),
            last_value(words, "video_out"@),
            last_value(words, "embed_gui"@),
        ) {
            (Some(a), Some(b), Some(c), Some(d), Some(e), Some(f), Some(g)) => Some(
                PluginProbe {
                    ports: PortConfig {
                        has_note_input: a,
                        has_note_output: b,
                        has_audio_output: c,
                        has_audio_input: d,
                        has_video_input: e,
                        has_video_output: f,
                    },
                    has_embedded_gui: g,
                },
            ),
            _ => None,
        }
    }
}

/// Appends a key with its value, behind a blank.
fn append_setting(out: &mut String, key: &str, b: bool)
    ensures
        final(out)@ == old(out)@ + seq![' '] + setting(key@, b),
{
    proof {
        reveal_strlit(" ");
        reveal_strlit("=");
    }
    let ghost start = out@;
    out.append(" ");
    out.append(key);
    out.append("=");
    out.append(
        if b {
            "true"
        } else {
            "false"
        },
    );
    assert(out@ =~= start + seq![' '] + setting(key@, b));
}

/// Where the key of a word ends.
fn find_key_end(w: &Vec<char>) -> (r: Option<usize>)
    ensures
        match r {
            Some(i) => i < w@.len() && key_end(w@, 0) == Some(i as int),
            None => key_end(w@, 0) is None,
        },
{
    let mut i: usize = 0;
    while i < w.len()
        invariant
            i <= w@.len(),
            key_end(w@, 0) == key_end(w@, i as int),
        decreases w@.len() - i,
    {
        if w[i] == '=' {
            return Some(i);
        }
        i += 1;
    }
    None
}

impl PluginProbe {
    /// The line that a probe prints: seven keys, each with its truth value.
    pub fn to_line(&self) -> (r: String)
        ensures
            r@ == probe_line(*self),
    {
        let mut out = String::new();
        out.append("note_in=");
        out.append(
            if self.ports.has_note_input {
                "true"
            } else {
                "false"
            },
        );
        let ghost all = settings(*self);
        proof {
            reveal_strlit("note_in=");
            reveal_strlit("note_in");
            assert("note_in="@ =~= "note_in"@ + seq!['=']);
            assert(out@ =~= all[0]);
            assert(all.take(1) =~= seq![all[0]]);
            text::lemma_joined_push(all, 1);
            text::lemma_joined_push(all, 2);
            text::lemma_joined_push(all, 3);
            text::lemma_joined_push(all, 4);
            text::lemma_joined_push(all, 5);
            text::lemma_joined_push(all, 6);
            assert(all.take(7) =~= all);
        }
        append_setting(&mut out, "note_out", self.ports.has_note_output);
        append_setting(&mut out, "audio_out", self.ports.has_audio_output);
        append_setting(&mut out, "audio_in", self.ports.has_audio_input);
        append_setting(&mut out, "video_in", self.ports.has_video_input);
        append_setting(&mut out, "video_out", self.ports.has_video_output);
        append_setting(&mut out, "embed_gui", self.has_embedded_gui);
        out
    }

    /// Reads a line that a probe printed, see [`read_line`].
    pub fn parse_line(s: &str) -> (r: Option<PluginProbe>)
        ensures
            r == read_line(s@),
    {
        let words = split_words(s);
        let ghost all = text::words(s@);
        let mut note_in: Option<bool> = None;
        let mut note_out: Option<bool> = None;
        let mut audio_out: Option<bool> = None;
        let mut audio_in: Option<bool> = None;
        let mut video_in: Option<bool> = None;
        let mut video_out: Option<bool> = None;
        let mut embed_gui: Option<bool> = None;
        let mut i: usize = 0;
        proof {
            assert(all.take(0) =~= Seq::<Seq<char>>::empty());
            lemma_keys_differ();
        }
        while i < words.len()
            invariant
                all == text::words(s@),
                keys_differ(),
                words@.len() == all.len(),
                forall|k: int| 0 <= k < all.len() ==> (#[trigger] words@[k])@ == all[k],
                i <= words@.len(),
                forall|k: int| 0 <= k < i ==> word_value(#[trigger] all[k]) is Some,
                note_in == last_value(all.take(i as int), "note_in"@),
                note_out == last_value(all.take(i as int), "note_out"@),
                audio_out == last_value(all.take(i as int), "audio_out"@),
                audio_in == last_value(all.take(i as int), "audio_in"@),
                video_in == last_value(all.take(i as int), "video_in"@),
                video_out == last_value(all.take(i as int), "video_out"@),
                embed_gui == last_value(all.take(i as int), "embed_gui"@),
            decreases words@.len() - i,
        {
            let w = &words[i];
            proof {
                assert(w@ == all[i as int]);
                assert(all.take(i + 1).drop_last() =~= all.take(i as int));
                assert(all.take(i + 1).last() == all[i as int]);
            }
            let end: usize = match find_key_end(w) {
                Some(end) => end,
                None => {
                    assert(word_value(all[i as int]) is None);
                    return None;
                },
            };
            assert(w@.subrange(end + 1, w@.len() as int) =~= w@.skip(end + 1));
            assert(w@.subrange(0, end as int) =~= w@.take(end as int));
            let b = if range_is(w, end + 1, w.len(), "true") {
                true
            } else if range_is(w, end + 1, w.len(), "false") {
                false
            } else {
                assert(word_value(all[i as int]) is None);
                return None;
            };
            assert(word_value(all[i as int]) == Some(b));
            if range_is(w, 0, end, "note_in") {
                note_in = Some(b);
            } else if range_is(w, 0, end, "note_out") {
                note_out = Some(b);
            } else if range_is(w, 0, end, "audio_out") {
                audio_out = Some(b);
            } else if range_is(w, 0, end, "audio_in") {
                audio_in = Some(b);
            } else if range_is(w, 0, end, "video_in") {
                video_in = Some(b);
            } else if range_is(w, 0, end, "video_out") {
                video_out = Some(b);
            } else if range_is(w, 0, end, "embed_gui") {
                embed_gui = Some(b);
            }
            i += 1;
        }
        assert(all.take(i as int) =~= all);
        match (note_in, note_out, audio_out, audio_in, video_in, video_out, embed_gui) {
            (Some(a), Some(b), Some(c), Some(d), Some(e), Some(f), Some(g)) => Some(
                PluginProbe {
                    ports: PortConfig {
                        has_note_input: a,
                        has_note_output: b,
                        has_audio_output: c,
                        has_audio_input: d,
                        has_video_input: e,
                        has_video_output: f,
                    },
                    has_embedded_gui: g,
                },
            ),
            _ => None,
        }
    }
}

/// Reading the line that a probe prints gives what the probe told.
pub proof fn law_probe_line_reads_back(p: PluginProbe)
    ensures
        read_line(probe_line(p)) == Some(p),
{
    let all = settings(p);
    lemma_keys_differ();
    lemma_setting("note_in"@, p.ports.has_note_input);
    lemma_setting("note_out"@, p.ports.has_note_output);
    lemma_setting("audio_out"@, p.ports.has_audio_output);
    lemma_setting("audio_in"@, p.ports.has_audio_input);
    lemma_setting("video_in"@, p.ports.has_video_input);
    lemma_setting("video_out"@, p.ports.has_video_output);
    lemma_setting("embed_gui"@, p.has_embedded_gui);
    assert forall|i: int| 0 <= i < all.len() implies text::is_word(#[trigger] all[i]) && word_value(all[i]) is Some by {
        assert(i == 0 || i == 1 || i == 2 || i == 3 || i == 4 || i == 5 || i == 6);
    }
    text::lemma_words_of_joined(all);
    let d6 = all.drop_last();
    let d5 = d6.drop_last();
    let d4 = d5.drop_last();
    let d3 = d4.drop_last();
    let d2 = d3.drop_last();
    let d1 = d2.drop_last();
    assert(d6.last() == all[5] && d5.last() == all[4] && d4.last() == all[3]);
    assert(d3.last() == all[2] && d2.last() == all[1] && d1.last() == all[0]);
    reveal_with_fuel(last_value, 8);
    assert(last_value(all, "embed_gui"@) == Some(p.has_embedded_gui));
    assert(last_value(all, "video_out"@) == Some(p.ports.has_video_output));
    assert(last_value(all, "video_in"@) == Some(p.ports.has_video_input));
    assert(last_value(all, "audio_in"@) == Some(p.ports.has_audio_input));
    assert(last_value(all, "audio_out"@) == Some(p.ports.has_audio_output));
    assert(last_value(all, "note_out"@) == Some(p.ports.has_note_output));
    assert(last_value(all, "note_in"@) == Some(p.ports.has_note_input));
}

/// A line that lacks a key tells nothing, whatever else it holds.
pub proof fn law_every_key_is_needed(line: Seq<char>)
    requires
        ({
            let w = text::words(line);
            last_value(w, "note_in"@) is None || last_value(w, "note_out"@) is None || last_value(w, "audio_out"@) is None
                || last_value(w, "audio_in"@) is None || last_value(w, "video_in"@) is None || last_value(
                w,
                "video_out"@,
            ) is None || last_value(w, "embed_gui"@) is None
        }),
    ensures
        read_line(line) is None,
{
}

/// The seven keys are different words without an equals sign.
spec fn keys_differ() -> bool {
    &&& is_key("note_in"@) && is_key("note_out"@) && is_key("audio_out"@) && is_key("audio_in"@)
    &&& is_key("video_in"@) && is_key("video_out"@) && is_key("embed_gui"@)
    &&& "note_in"@.len() == 7 && "note_out"@.len() == 8 && "audio_in"@.len() == 8 && "video_in"@.len() == 8
    &&& "audio_out"@.len() == 9 && "video_out"@.len() == 9 && "embed_gui"@.len() == 9
    &&& "note_out"@ != "audio_in"@ && "note_out"@ != "video_in"@ && "audio_in"@ != "video_in"@
    &&& "audio_out"@ != "video_out"@ && "audio_out"@ != "embed_gui"@ && "video_out"@ != "embed_gui"@
}

/// Whether a text is a word without an equals sign.
spec fn is_key(s: Seq<char>) -> bool {
    text::is_word(s) && forall|i: int| 0 <= i < s.len() ==> #[trigger] s[i] != '='
}

proof fn lemma_keys_differ()
    ensures
        keys_differ(),
{
    reveal_strlit("note_in");
    reveal_strlit("note_out");
    reveal_strlit("audio_out");
    reveal_strlit("audio_in");
    reveal_strlit("video_in");
    reveal_strlit("video_out");
    reveal_strlit("embed_gui");
    assert("note_out"@[0] == 'n' && "audio_in"@[0] == 'a' && "video_in"@[0] == 'v');
    assert("audio_out"@[0] == 'a' && "video_out"@[0] == 'v' && "embed_gui"@[0] == 'e');
}

proof fn lemma_key_end(w: Seq<char>, from: int, i: int)
    requires
        0 <= from <= i < w.len(),
        w[i] == '=',
        forall|k: int| from <= k < i ==> #[trigger] w[k] != '=',
    ensures
        key_end(w, from) == Some(i),
    decreases i - from,
{
    if from < i {
        lemma_key_end(w, from + 1, i);
    }
}

proof fn lemma_setting(key: Seq<char>, b: bool)
    requires
        is_key(key),
    ensures
        text::is_word(setting(key, b)),
        word_key(setting(key, b)) == key,
        word_value(setting(key, b)) == Some(b),
{
    let w = setting(key, b);
    let n = key.len() as int;
    reveal_strlit("true");
    reveal_strlit("false");
    assert("true"@.len() == 4 && "false"@.len() == 5);
    assert forall|i: int| 0 <= i < n implies #[trigger] w[i] != '=' by {
        assert(w[i] == key[i]);
    }
    assert(w[n] == '=');
    lemma_key_end(w, 0, n);
    assert(w.take(n) =~= key);
    assert(w.skip(n + 1) =~= truth_text(b));
    assert forall|i: int| 0 <= i < w.len() implies !text::is_space(#[trigger] w[i]) by {
        if i < n {
            assert(w[i] == key[i]);
        } else if i > n {
            assert(w[i] == truth_text(b)[i - n - 1]);
        }
    }
}

} // verus!
