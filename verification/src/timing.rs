//! Where a song starts, where it ends and what is looped, in samples.
//!
//! How many samples a number of beats makes is for the caller to say; what
//! follows from that is said here.

use crate::beat::Beat;
use crate::model;
use crate::model::{Clip, Song, SongModel, TrackModel};
use vstd::prelude::*;

verus! {

/// The clips of a song in samples.
pub struct ClipSamples {
    /// Whether the tempo is more than zero.
    pub has_tempo: bool,
    /// The start and the length of each clip, by track.
    pub clips: Vec<Vec<(u64, u64)>>,
}

/// A range in beats, and what it makes in samples.
#[derive(Clone, Copy, Debug, PartialEq, Eq, Structural)]
pub struct LoopSamples {
    pub start_beat: Beat,
    pub end_beat: Beat,
    pub start: u64,
    pub end: u64,
}

/// Whether a clip is to be heard: it is at a place, and has a length that makes
/// at least one sample.
pub open spec fn plays(clip: Clip, samples: (u64, u64)) -> bool {
    &&& clip.length_beats.is_finite()
    &&& (Beat { bits: 0 }).lt(clip.length_beats)
    &&& clip.start_beat.is_finite()
    &&& samples.1 != 0
}

/// Where a clip ends; at the end of the numbers it stays there.
pub open spec fn end_of(samples: (u64, u64)) -> int {
    if samples.0 + samples.1 > u64::MAX {
        u64::MAX as int
    } else {
        samples.0 + samples.1
    }
}

/// From the first start to the last end among the first `n` clips of a track and
/// what came before.
pub open spec fn clip_span(clips: Seq<Clip>, samples: Seq<(u64, u64)>, n: nat, before: Option<(int, int)>) -> Option<
    (int, int),
>
    decreases n,
{
    if n == 0 {
        before
    } else {
        let so_far = clip_span(clips, samples, (n - 1) as nat, before);
        let s = samples[n - 1];
        if !plays(clips[n - 1], s) {
            so_far
        } else {
            match so_far {
                None => Some((s.0 as int, end_of(s))),
                Some(span) => Some(
                    (
                        if (s.0 as int) < span.0 {
                            s.0 as int
                        } else {
                            span.0
                        },
                        if end_of(s) > span.1 {
                            end_of(s)
                        } else {
                            span.1
                        },
                    ),
                ),
            }
        }
    }
}

/// From the first start to the last end among the clips of the first `n` tracks.
pub open spec fn track_span(tracks: Seq<TrackModel>, samples: Seq<Seq<(u64, u64)>>, n: nat) -> Option<(int, int)>
    decreases n,
{
    if n == 0 {
        None
    } else {
        clip_span(
            tracks[n - 1].clips,
            samples[n - 1],
            tracks[n - 1].clips.len(),
            track_span(tracks, samples, (n - 1) as nat),
        )
    }
}

impl ClipSamples {
    /// The samples of the clips, by track.
    pub open spec fn by_track(self) -> Seq<Seq<(u64, u64)>> {
        self.clips@.map_values(|v: Vec<(u64, u64)>| v@)
    }

    /// Whether there are samples for every clip of a song.
    pub open spec fn fits(self, song: SongModel) -> bool {
        &&& self.clips@.len() == song.tracks.len()
        &&& forall|i: int| 0 <= i < song.tracks.len() ==> self.clips@[i]@.len() == (#[trigger] song.tracks[i]).clips.len()
    }
}

/// What there is to be heard of a song: from the first start to the last end of
/// its clips. None if there is nothing, or no time passes.
pub open spec fn bounds(song: Option<SongModel>, samples: ClipSamples) -> Option<(int, int)> {
    match song {
        None => None,
        Some(song) => if !samples.has_tempo {
            None
        } else {
            match track_span(song.tracks, samples.by_track(), song.tracks.len()) {
                None => None,
                Some(span) => if span.1 <= span.0 {
                    None
                } else {
                    Some(span)
                },
            }
        },
    }
}

/// The model of a song, if there is one.
pub open spec fn song_model(song: Option<&Song>) -> Option<SongModel> {
    match song {
        Some(s) => Some(s@),
        None => None,
    }
}

/// Whether a result says what a span is.
pub open spec fn says(r: Option<(u64, u64)>, span: Option<(int, int)>) -> bool {
    match r {
        Some(b) => span == Some((b.0 as int, b.1 as int)),
        None => span is None,
    }
}

fn widen(clip: &Clip, samples: (u64, u64), so_far: Option<(u64, u64)>) -> (r: Option<(u64, u64)>)
    ensures
        r == if !plays(*clip, samples) {
            so_far
        } else {
            match so_far {
                None => Some((samples.0, end_of(samples) as u64)),
                Some(span) => Some(
                    (
                        if samples.0 < span.0 {
                            samples.0
                        } else {
                            span.0
                        },
                        if end_of(samples) > span.1 {
                            end_of(samples) as u64
                        } else {
                            span.1
                        },
                    ),
                ),
            }
        },
{
    if !clip.length_beats.is_finite() || !Beat::zero().lt(clip.length_beats) || !clip.start_beat.is_finite() {
        return so_far;
    }
    if samples.1 == 0 {
        return so_far;
    }
    let end: u64 = if samples.0 > u64::MAX - samples.1 {
        u64::MAX
    } else {
        samples.0 + samples.1
    };
    match so_far {
        None => Some((samples.0, end)),
        Some((start, last)) => Some(
            (
                if samples.0 < start {
                    samples.0
                } else {
                    start
                },
                if end > last {
                    end
                } else {
                    last
                },
            ),
        ),
    }
}

/// What there is to be heard of a song, see [`bounds`].
pub fn song_bounds_samples(song: Option<&Song>, samples: &ClipSamples) -> (r: Option<(u64, u64)>)
    requires
        song matches Some(s) ==> samples.fits(s@),
    ensures
        says(r, bounds(song_model(song), *samples)),
{
    let song = match song {
        Some(s) => s,
        None => {
            return None;
        },
    };
    if !samples.has_tempo {
        return None;
    }
    let ghost tracks = song@.tracks;
    let ghost by = samples.by_track();
    let mut span: Option<(u64, u64)> = None;
    let mut t: usize = 0;
    while t < song.tracks.len()
        invariant
            samples.fits(song@),
            tracks == song@.tracks,
            by == samples.by_track(),
            t <= song.tracks@.len(),
            says(span, track_span(tracks, by, t as nat)),
        decreases song.tracks@.len() - t,
    {
        let track = &song.tracks[t];
        let row = &samples.clips[t];
        proof {
            assert(tracks[t as int] == track@);
            assert(by[t as int] == row@);
            assert(row@.len() == tracks[t as int].clips.len());
        }
        let ghost before = track_span(tracks, by, t as nat);
        let mut c: usize = 0;
        while c < track.clips.len()
            invariant
                row@.len() == track.clips@.len(),
                c <= track.clips@.len(),
                says(span, clip_span(track.clips@, row@, c as nat, before)),
            decreases track.clips@.len() - c,
        {
            span = widen(&track.clips[c], row[c], span);
            c += 1;
        }
        t += 1;
    }
    match span {
        None => None,
        Some((start, end)) => if end <= start {
            None
        } else {
            Some((start, end))
        },
    }
}

/// Whether the playhead is past everything there is to be heard. Where there is
/// nothing, a song does not end.
pub fn song_ended(song: Option<&Song>, samples: &ClipSamples, playhead: u64) -> (r: bool)
    requires
        song matches Some(s) ==> samples.fits(s@),
    ensures
        r == match bounds(song_model(song), *samples) {
            Some(span) => playhead >= span.1,
            None => false,
        },
{
    match song_bounds_samples(song, samples) {
        Some((_, end)) => playhead >= end,
        None => false,
    }
}

/// What is looped: the range that was set, if it holds at least one sample, and
/// else all there is to be heard.
pub fn effective_loop_bounds(song: Option<&Song>, range: LoopSamples, samples: &ClipSamples) -> (r: Option<(u64, u64)>)
    requires
        song matches Some(s) ==> samples.fits(s@),
    ensures
        song is None ==> r is None,
        song is Some && samples.has_tempo && range.start_beat.lt(range.end_beat) && range.start < range.end ==> r
            == Some((range.start, range.end)),
        song is Some && !(samples.has_tempo && range.start_beat.lt(range.end_beat) && range.start < range.end) ==> says(
            r,
            bounds(song_model(song), *samples),
        ),
{
    if song.is_none() {
        return None;
    }
    if samples.has_tempo && range.start_beat.lt(range.end_beat) && range.end > range.start {
        return Some((range.start, range.end));
    }
    song_bounds_samples(song, samples)
}

/// Whatever is to be heard lies within the bounds: every clip that plays starts
/// and ends between them.
pub proof fn law_bounds_hold_every_clip(song: SongModel, samples: ClipSamples, t: int, c: int)
    requires
        samples.has_tempo,
        samples.fits(song),
        0 <= t < song.tracks.len(),
        0 <= c < song.tracks[t].clips.len(),
        plays(song.tracks[t].clips[c], samples.by_track()[t][c]),
        samples.by_track()[t][c].0 < u64::MAX,
    ensures
        bounds(Some(song), samples) matches Some(span) && span.0 <= samples.by_track()[t][c].0 && end_of(
            samples.by_track()[t][c],
        ) <= span.1,
{
    let by = samples.by_track();
    lemma_clip_span(song.tracks[t].clips, by[t], song.tracks[t].clips.len(), track_span(song.tracks, by, t as nat), c);
    lemma_track_span(song.tracks, by, song.tracks.len(), t);
}

/// A span that holds another one.
spec fn within(inner: Option<(int, int)>, outer: Option<(int, int)>) -> bool {
    inner matches Some(a) ==> (outer matches Some(b) && b.0 <= a.0 && a.1 <= b.1)
}

proof fn lemma_clip_span_grows(clips: Seq<Clip>, samples: Seq<(u64, u64)>, n: nat, before: Option<(int, int)>)
    ensures
        within(before, clip_span(clips, samples, n, before)),
    decreases n,
{
    if n > 0 {
        lemma_clip_span_grows(clips, samples, (n - 1) as nat, before);
    }
}

proof fn lemma_clip_span(clips: Seq<Clip>, samples: Seq<(u64, u64)>, n: nat, before: Option<(int, int)>, c: int)
    requires
        0 <= c < n,
        plays(clips[c], samples[c]),
    ensures
        within(Some((samples[c].0 as int, end_of(samples[c]))), clip_span(clips, samples, n, before)),
    decreases n,
{
    if c < n - 1 {
        lemma_clip_span(clips, samples, (n - 1) as nat, before, c);
    }
}

proof fn lemma_track_span(tracks: Seq<TrackModel>, samples: Seq<Seq<(u64, u64)>>, n: nat, t: int)
    requires
        0 <= t < n,
    ensures
        within(track_span(tracks, samples, (t + 1) as nat), track_span(tracks, samples, n)),
    decreases n,
{
    if t < n - 1 {
        lemma_track_span(tracks, samples, (n - 1) as nat, t);
        lemma_clip_span_grows(
            tracks[n - 1].clips,
            samples[n - 1],
            tracks[n - 1].clips.len(),
            track_span(tracks, samples, (n - 1) as nat),
        );
    }
}

/// Whether a clip is heard: it starts somewhere, has a length, and has samples.
pub open spec fn is_heard(clip: Clip, samples: (u64, u64)) -> bool {
    &&& clip.start_beat.is_finite()
    &&& clip.length_beats.is_finite()
    &&& clip.length_beats.rank() > 0
    &&& samples.1 > 0
}

/// Whether a clip of the first `n` tracks that is heard starts at a sample.
spec fn starts_at(tracks: Seq<TrackModel>, samples: Seq<Seq<(u64, u64)>>, x: int, n: int) -> bool {
    exists|t: int, c: int|
        0 <= t < n && 0 <= c < tracks[t].clips.len() && is_heard(#[trigger] tracks[t].clips[c], samples[t][c])
            && samples[t][c].0 == x
}

/// Whether a clip of the first `n` tracks that is heard ends at a sample.
spec fn ends_at(tracks: Seq<TrackModel>, samples: Seq<Seq<(u64, u64)>>, x: int, n: int) -> bool {
    exists|t: int, c: int|
        0 <= t < n && 0 <= c < tracks[t].clips.len() && is_heard(#[trigger] tracks[t].clips[c], samples[t][c]) && (
        samples[t][c].0 + samples[t][c].1 == x || x == u64::MAX && samples[t][c].0 + samples[t][c].1 > u64::MAX)
}

proof fn lemma_span_is_reached(
    tracks: Seq<TrackModel>,
    samples: Seq<Seq<(u64, u64)>>,
    t: int,
    n: nat,
    before: Option<(int, int)>,
)
    requires
        0 <= t < tracks.len(),
        n <= tracks[t].clips.len(),
        before matches Some(s) ==> starts_at(tracks, samples, s.0, t + 1) && ends_at(tracks, samples, s.1, t + 1),
    ensures
        clip_span(tracks[t].clips, samples[t], n, before) matches Some(s) ==> starts_at(tracks, samples, s.0, t + 1)
            && ends_at(tracks, samples, s.1, t + 1),
    decreases n,
{
    if n > 0 {
        lemma_span_is_reached(tracks, samples, t, (n - 1) as nat, before);
        let clip = tracks[t].clips[n - 1];
        let s = samples[t][n - 1];
        assert(is_heard(clip, s) == plays(clip, s));
        if plays(clip, s) {
            assert(starts_at(tracks, samples, s.0 as int, t + 1)) by {
                assert(is_heard(tracks[t].clips[n - 1], samples[t][n - 1]));
            }
            assert(ends_at(tracks, samples, end_of(s), t + 1)) by {
                assert(is_heard(tracks[t].clips[n - 1], samples[t][n - 1]));
            }
        }
    }
}

proof fn lemma_track_span_is_reached(tracks: Seq<TrackModel>, samples: Seq<Seq<(u64, u64)>>, n: nat)
    requires
        n <= tracks.len(),
    ensures
        track_span(tracks, samples, n) matches Some(s) ==> starts_at(tracks, samples, s.0, n as int) && ends_at(
            tracks,
            samples,
            s.1,
            n as int,
        ),
    decreases n,
{
    if n > 0 {
        let t = n - 1;
        lemma_track_span_is_reached(tracks, samples, t as nat);
        let before = track_span(tracks, samples, t as nat);
        if let Some(s) = before {
            let (u, c) = choose|u: int, c: int|
                0 <= u < t && 0 <= c < tracks[u].clips.len() && is_heard(#[trigger] tracks[u].clips[c], samples[u][c])
                    && samples[u][c].0 == s.0;
            assert(is_heard(tracks[u].clips[c], samples[u][c]));
            assert(starts_at(tracks, samples, s.0, n as int));
            let (v, d) = choose|v: int, d: int|
                0 <= v < t && 0 <= d < tracks[v].clips.len() && is_heard(#[trigger] tracks[v].clips[d], samples[v][d]) && (
                samples[v][d].0 + samples[v][d].1 == s.1 || s.1 == u64::MAX && samples[v][d].0 + samples[v][d].1
                    > u64::MAX);
            assert(is_heard(tracks[v].clips[d], samples[v][d]));
            assert(ends_at(tracks, samples, s.1, n as int));
        }
        lemma_span_is_reached(tracks, samples, t, tracks[t].clips.len(), before);
    }
}

/// The bounds of a song are no wider than its clips: one that is heard starts where they
/// start, and one ends where they end.
pub proof fn law_bounds_are_reached(song: SongModel, samples: ClipSamples)
    ensures
        bounds(Some(song), samples) matches Some(span) ==> {
            &&& samples.has_tempo
            &&& exists|t: int, c: int|
                0 <= t < song.tracks.len() && 0 <= c < song.tracks[t].clips.len() && is_heard(
                    #[trigger] song.tracks[t].clips[c],
                    samples.by_track()[t][c],
                ) && samples.by_track()[t][c].0 == span.0
            &&& exists|t: int, c: int|
                0 <= t < song.tracks.len() && 0 <= c < song.tracks[t].clips.len() && is_heard(
                    #[trigger] song.tracks[t].clips[c],
                    samples.by_track()[t][c],
                ) && (samples.by_track()[t][c].0 + samples.by_track()[t][c].1 == span.1 || span.1 == u64::MAX
                    && samples.by_track()[t][c].0 + samples.by_track()[t][c].1 > u64::MAX)
            &&& span.0 < span.1
        },
{
    lemma_track_span_is_reached(song.tracks, samples.by_track(), song.tracks.len());
}

} // verus!
