//! Crossfades between neighbouring audio clips.
//!
//! Where one clip ends and the next begins, the run of events at the end of the
//! one fades out while the run at the start of the other fades in, over the same
//! stretch of time.

use super::clip::{Clip, ClipContent, ContentEvent, ContentModel, Fade};
use super::ids;
use super::lookup;
use super::song;
use super::song::{Song, SongModel};
use super::time_paste;
use super::time_selection::ClipKey;
use super::track::TrackModel;
use super::track_ids;
use super::window_edit;
use super::window_edit::{cut_again, edge_run, joined_run};
use crate::beat::Beat;
use vstd::prelude::*;

verus! {

/// The shortest stretch that counts, 1e-9 of a beat, as the bit pattern of a double.
pub const SHORTEST: u64 = 0x3e11_2e0b_e826_d695;

/// What came of a crossfade.
#[derive(Clone, Copy, Debug, PartialEq, Eq, Structural)]
pub struct Crossfade {
    /// There is one now.
    pub applied: bool,
    /// The song changed, if only because an event was cut at the edge of a clip.
    pub changed: bool,
}

/// One side of a crossfade: the run of events at the edge of a clip.
#[derive(Debug)]
pub struct XfadeSide {
    pub content_id: u32,
    pub run: Vec<usize>,
    /// How much material there is beyond the edge.
    pub room: Beat,
    /// How long the run is.
    pub len: Beat,
}

/// The stretch of a crossfade.
#[derive(Clone, Copy, Debug, PartialEq, Eq, Structural)]
pub struct XfadeSpan {
    /// How much of it lies before the edge.
    pub lead: Beat,
    /// How much of it lies behind the edge.
    pub tail: Beat,
    /// How long it is: both together.
    pub ramp: Beat,
}

/// Whether a distance is as good as none.
pub open spec fn is_touching(gap: Beat) -> bool {
    gap.magnitude() <= SHORTEST
}

/// Which distances are as good as none.
pub open spec fn touching(gaps: Seq<Beat>) -> Seq<bool> {
    gaps.map_values(|g: Beat| is_touching(g))
}

fn which_touch(gaps: &Vec<Beat>) -> (r: Vec<bool>)
    ensures
        r@ == touching(gaps@),
{
    let mut r: Vec<bool> = Vec::new();
    let mut i: usize = 0;
    while i < gaps.len()
        invariant
            i <= gaps@.len(),
            r@.len() == i,
            forall|k: int| 0 <= k < i ==> #[trigger] r@[k] == is_touching(gaps@[k]),
        decreases gaps@.len() - i,
    {
        r.push(gaps[i].magnitude() <= SHORTEST);
        i += 1;
    }
    assert(r@ =~= touching(gaps@));
    r
}

/// The smaller of two numbers; the other one if one is no number.
pub open spec fn smaller_of(a: Beat, b: Beat) -> Beat {
    if a.is_nan() {
        b
    } else if !b.is_nan() && b.lt(a) {
        b
    } else {
        a
    }
}

fn smaller(a: Beat, b: Beat) -> (r: Beat)
    ensures
        r == smaller_of(a, b),
{
    if a.is_nan() {
        b
    } else if !b.is_nan() && b.lt(a) {
        b
    } else {
        a
    }
}

/// A number, if it is more than zero, else that.
pub open spec fn not_below_zero(x: Beat) -> Beat {
    if (Beat { bits: 0 }).lt(x) {
        x
    } else {
        Beat { bits: 0 }
    }
}

/// How far a crossfade reaches before and behind the edge: half of what was asked
/// for at most, no further than there is material to sound there, and no further
/// than the other side has room for its ramp.
pub open spec fn reach_of(half: Beat, prev: XfadeSide, next: XfadeSide) -> (Beat, Beat) {
    let most = not_below_zero(half);
    (smaller_of(smaller_of(most, next.room), prev.len), smaller_of(smaller_of(most, prev.room), next.len))
}

/// How far a crossfade reaches before and behind the edge, see [`reach_of`].
pub fn xfade_reach(half: Beat, prev: &XfadeSide, next: &XfadeSide) -> (r: (Beat, Beat))
    ensures
        r == reach_of(half, *prev, *next),
{
    let most = if Beat::zero().lt(half) {
        half
    } else {
        Beat::zero()
    };
    (smaller(smaller(most, next.room), prev.len), smaller(smaller(most, prev.room), next.len))
}

/// Neither side of a crossfade sounds what it has not got, nor fades for longer
/// than it is, nor reaches further than was asked for.
pub proof fn law_crossfades_stay_within_the_material(half: Beat, prev: XfadeSide, next: XfadeSide)
    requires
        !prev.room.is_nan(),
        !prev.len.is_nan(),
        !next.room.is_nan(),
        !next.len.is_nan(),
    ensures
        ({
            let (lead, tail) = reach_of(half, prev, next);
            &&& lead.le(not_below_zero(half)) && lead.le(next.room) && lead.le(prev.len)
            &&& tail.le(not_below_zero(half)) && tail.le(prev.room) && tail.le(next.len)
        }),
{
}

/// The place of a clip: that of its track, and its own.
pub open spec fn clip_place(song: SongModel, key: ClipKey) -> Option<(int, int)> {
    match lookup::track_place(song.tracks, key.track_id) {
        Some(t) => match ids::place(track_ids::clip_ids(song.tracks[t].clips), key.clip_id) {
            Some(c) => Some((t, c)),
            None => None,
        },
        None => None,
    }
}

/// A clip by its key.
pub open spec fn clip_by_key(song: SongModel, key: ClipKey) -> Option<Clip> {
    match clip_place(song, key) {
        Some(at) => Some(song.tracks[at.0].clips[at.1]),
        None => None,
    }
}

/// The events of an audio content.
pub open spec fn audio_events(song: SongModel, content_id: u32) -> Option<Seq<ContentEvent>> {
    match ids::place(time_paste::content_ids(song), content_id) {
        Some(c) => match song.clip_contents[c].1 {
            ContentModel::Audio(v) => Some(v),
            _ => None,
        },
        None => None,
    }
}

/// An edge of the window of a clip, with some tolerance.
#[derive(Clone, Copy, Debug, PartialEq, Eq, Structural)]
pub struct Edge {
    /// A little before it.
    pub before: Beat,
    /// A little behind it.
    pub behind: Beat,
}

/// Whether an event lies across an edge: it starts before and ends behind it.
pub open spec fn lies_across(e: ContentEvent, edge: Edge) -> bool {
    e.start_beat.lt(edge.before) && edge.behind.lt(e.end_beat)
}

/// Whether one of some events lies across an edge.
pub open spec fn one_lies_across(events: Seq<ContentEvent>, edge: Edge) -> bool {
    exists|i: int| 0 <= i < events.len() && lies_across(#[trigger] events[i], edge)
}

/// Whether an event of a clip's audio content lies across an edge of the clip's
/// window.
pub open spec fn needs_a_cut(song: SongModel, key: ClipKey, edge: Edge) -> bool {
    match clip_by_key(song, key) {
        Some(clip) => match audio_events(song, clip.content_id) {
            Some(events) => one_lies_across(events, edge),
            None => false,
        },
        None => false,
    }
}

/// A song with other events in an audio content.
pub open spec fn with_audio_events(song: SongModel, content_id: u32, events: Seq<ContentEvent>) -> SongModel {
    let c = ids::place(time_paste::content_ids(song), content_id)->0;
    SongModel {
        clip_contents: song.clip_contents.update(c, (song.clip_contents[c].0, ContentModel::Audio(events))),
        ..song
    }
}

/// A song after a run of events was edited as one.
pub open spec fn with_run_edited(
    song: SongModel,
    content_id: u32,
    run: Seq<usize>,
    g: spec_fn(ContentEvent) -> ContentEvent,
) -> SongModel {
    match audio_events(song, content_id) {
        Some(v) => if window_edit::is_run(v, run) {
            with_audio_events(song, content_id, window_edit::recut(v, run, g(window_edit::whole_of(v, run))))
        } else {
            song
        },
        None => song,
    }
}

/// An event that fades out, or in, over a stretch.
pub open spec fn faded(e: ContentEvent, out: bool, span: XfadeSpan) -> ContentEvent {
    if out {
        ContentEvent { fade_out: Fade { beats: span.ramp, over_beats: span.tail, ..e.fade_out }, ..e }
    } else {
        ContentEvent { fade_in: Fade { beats: span.ramp, over_beats: span.lead, ..e.fade_in }, ..e }
    }
}

/// A song with another clip in the place of one.
pub open spec fn with_clip_at(song: SongModel, key: ClipKey, g: spec_fn(Clip) -> Clip) -> SongModel {
    match clip_place(song, key) {
        Some(at) => {
            let t = song.tracks[at.0];
            SongModel {
                tracks: song.tracks.update(at.0, TrackModel { clips: t.clips.update(at.1, g(t.clips[at.1])), ..t }),
                ..song
            }
        },
        None => song,
    }
}

/// A song after a crossfade was put where two clips meet.
pub open spec fn crossfaded(
    song: SongModel,
    prev: ClipKey,
    next: ClipKey,
    prev_side: (u32, Seq<usize>),
    next_side: (u32, Seq<usize>),
    span: XfadeSpan,
) -> SongModel {
    let a = with_run_edited(song, prev_side.0, prev_side.1, |e: ContentEvent| faded(e, true, span));
    let b = with_run_edited(a, next_side.0, next_side.1, |e: ContentEvent| faded(e, false, span));
    let c = with_clip_at(b, prev, |x: Clip| Clip { xfade_tail_beats: span.tail, ..x });
    with_clip_at(c, next, |x: Clip| Clip { xfade_lead_beats: span.lead, ..x })
}

fn any_across(events: &Vec<ContentEvent>, edge: Edge) -> (r: bool)
    ensures
        r == one_lies_across(events@, edge),
{
    let mut i: usize = 0;
    while i < events.len()
        invariant
            i <= events@.len(),
            forall|k: int| 0 <= k < i ==> !lies_across(#[trigger] events@[k], edge),
        decreases events@.len() - i,
    {
        if events[i].start_beat.lt(edge.before) && edge.behind.lt(events[i].end_beat) {
            assert(lies_across(events@[i as int], edge));
            return true;
        }
        i += 1;
    }
    false
}

impl Song {
    fn find_clip(&self, key: ClipKey) -> (r: Option<(usize, usize)>)
        ensures
            match r {
                Some(at) => at.0 < self.tracks@.len() && at.1 < self.tracks@[at.0 as int].clips@.len() && clip_place(
                    self@,
                    key,
                ) == Some((at.0 as int, at.1 as int)),
                None => clip_place(self@, key) is None,
            },
    {
        match self.track_index(key.track_id) {
            None => None,
            Some(t) => {
                let clips = &self.tracks[t].clips;
                assert(self@.tracks[t as int] == self.tracks@[t as int]@);
                let ghost all = track_ids::clip_ids(clips@);
                let mut i: usize = 0;
                while i < clips.len()
                    invariant
                        t < self.tracks@.len(),
                        lookup::track_place(self@.tracks, key.track_id) == Some(t as int),
                        self@.tracks[t as int] == self.tracks@[t as int]@,
                        clips == self.tracks@[t as int].clips,
                        all == track_ids::clip_ids(clips@),
                        i <= clips@.len(),
                        ids::place_from(all, key.clip_id, 0) == ids::place_from(all, key.clip_id, i as int),
                    decreases clips@.len() - i,
                {
                    assert(all[i as int] == clips@[i as int].id);
                    if clips[i].id == key.clip_id {
                        return Some((t, i));
                    }
                    i += 1;
                }
                None
            },
        }
    }

    fn find_content(&self, content_id: u32) -> (r: Option<usize>)
        ensures
            match r {
                Some(c) => c < self.clip_contents@.len() && ids::place(
                    time_paste::content_ids(self@),
                    content_id,
                ) == Some(c as int),
                None => ids::place(time_paste::content_ids(self@), content_id) is None,
            },
    {
        let ghost all = time_paste::content_ids(self@);
        let mut i: usize = 0;
        while i < self.clip_contents.len()
            invariant
                all == time_paste::content_ids(self@),
                i <= self.clip_contents@.len(),
                ids::place_from(all, content_id, 0) == ids::place_from(all, content_id, i as int),
            decreases self.clip_contents@.len() - i,
        {
            assert(all[i as int] == self.clip_contents@[i as int].0);
            if self.clip_contents[i].0 == content_id {
                return Some(i);
            }
            i += 1;
        }
        None
    }

    /// The content of a clip and the run of its events that reaches an edge of the
    /// clip's window: its end, or its start. The window starts where the clip starts in
    /// its content; `window_end` is where it ends there. `gaps` are how far the end, or
    /// the start, of every event is from the edge. None if there is no such clip, if it
    /// is no audio clip, or if no run reaches the edge.
    pub fn xfade_side(&self, key: ClipKey, at_end: bool, window_end: Beat, gaps: &Vec<Beat>) -> (r: Option<
        (u32, Vec<usize>),
    >)
        ensures
            match clip_by_key(self@, key) {
                None => r is None,
                Some(clip) => match audio_events(self@, clip.content_id) {
                    None => r is None,
                    Some(events) => (r matches Some(side) ==> side.0 == clip.content_id && window_edit::is_run(
                        events,
                        side.1@,
                    )) && window_edit::is_edge_run(
                        events,
                        (clip.content_offset_beats, window_end),
                        at_end,
                        touching(gaps@),
                        match r {
                            Some(side) => Some(side.1@),
                            None => None,
                        },
                    ),
                },
            },
    {
        let found = self.find_clip(key);
        match found {
            None => None,
            Some((t, c)) => {
                assert(self@.tracks[t as int] == self.tracks@[t as int]@);
                let content_id: u32 = self.tracks[t].clips[c].content_id;
                let window = (self.tracks[t].clips[c].content_offset_beats, window_end);
                match self.find_content(content_id) {
                    None => None,
                    Some(i) => {
                        assert(self@.clip_contents[i as int].1 == self.clip_contents@[i as int].1@);
                        match &self.clip_contents[i].1 {
                            ClipContent::Audio(events) => {
                                let run = edge_run(events, window, at_end, &which_touch(gaps));
                                match run {
                                    Some(run) => Some((content_id, run)),
                                    None => None,
                                }
                            },
                            _ => None,
                        }
                    },
                }
            },
        }
    }

    /// Whether an event of a clip's audio content lies across an edge of the clip's
    /// window, see [`needs_a_cut`].
    pub fn crosses_window_edge(&self, key: ClipKey, edge: Edge) -> (r: bool)
        ensures
            r == needs_a_cut(self@, key, edge),
    {
        let found = self.find_clip(key);
        if let Some((t, c)) = found {
            assert(self@.tracks[t as int] == self.tracks@[t as int]@);
            let content_id: u32 = self.tracks[t].clips[c].content_id;
            if let Some(i) = self.find_content(content_id) {
                assert(self@.clip_contents[i as int].1 == self.clip_contents@[i as int].1@);
                if let ClipContent::Audio(events) = &self.clip_contents[i].1 {
                    return any_across(events, edge);
                }
            }
        }
        false
    }

    /// Gives a clip the content that is cut at an edge of its window, if one of the
    /// events of its audio content lies across the edge. `cut_content` is the content
    /// that is cut there. Says whether it did.
    pub fn cut_at_window_edge(&mut self, key: ClipKey, edge: Edge, cut_content: u32) -> (r: bool)
        ensures
            r == needs_a_cut(old(self)@, key, edge),
            final(self)@ == (if r {
                with_clip_at(old(self)@, key, |x: Clip| Clip { content_id: cut_content, ..x })
            } else {
                old(self)@
            }),
    {
        if !self.crosses_window_edge(key, edge) {
            return false;
        }
        let ghost before = self@;
        let ghost after = with_clip_at(before, key, |x: Clip| Clip { content_id: cut_content, ..x });
        let found = self.find_clip(key);
        if let Some((t, c)) = found {
            assert(before.tracks[t as int] == self.tracks@[t as int]@);
            let track = &mut self.tracks[t];
            track.clips[c].content_id = cut_content;
            proof {
                assert(self.tracks@[t as int]@ =~= after.tracks[t as int]);
                assert(self@.tracks =~= after.tracks);
                assert(self@ =~= after);
            }
        }
        true
    }

    fn fade_run(&mut self, content_id: u32, run: &Vec<usize>, out: bool, span: XfadeSpan)
        ensures
            final(self)@ == with_run_edited(old(self)@, content_id, run@, |e: ContentEvent| faded(e, out, span)),
    {
        let ghost before = self@;
        let ghost g = |e: ContentEvent| faded(e, out, span);
        let found = self.find_content(content_id);
        if let Some(i) = found {
            assert(before.clip_contents[i as int].1 == self.clip_contents@[i as int].1@);
            let entry = &mut self.clip_contents[i];
            if let ClipContent::Audio(events) = &mut entry.1 {
                if let Some(mut whole) = joined_run(events, run) {
                    if out {
                        whole.fade_out.beats = span.ramp;
                        whole.fade_out.over_beats = span.tail;
                    } else {
                        whole.fade_in.beats = span.ramp;
                        whole.fade_in.over_beats = span.lead;
                    }
                    cut_again(events, run, whole);
                }
            }
            proof {
                assert(self@.clip_contents =~= with_run_edited(before, content_id, run@, g).clip_contents);
                assert(self@ =~= with_run_edited(before, content_id, run@, g));
            }
        }
    }

    /// Puts a crossfade where two clips meet: the run at the end of the one fades
    /// out, and the run at the start of the other fades in, over the same stretch,
    /// and each clip sounds as far beyond its edge. Nothing is done if there is no
    /// run on one of the sides, or if there is next to no stretch. `half` is half of
    /// what was asked for, and `ramp` is how long the stretch is: how far it reaches
    /// before and behind the edge, both together. `cut` says whether an event was cut
    /// at the edge of one of the clips before. How much of its source a take has is
    /// left alone: the caller sees to it that there is enough beyond the edges.
    pub fn crossfade_adjacent(
        &mut self,
        prev: ClipKey,
        next: ClipKey,
        prev_side: Option<&XfadeSide>,
        next_side: Option<&XfadeSide>,
        half: Beat,
        ramp: Beat,
        cut: bool,
    ) -> (r: Crossfade)
        ensures
            r.applied == (prev_side is Some && next_side is Some && !ramp.le(Beat { bits: SHORTEST })),
            r.changed == (r.applied || cut),
            !r.applied ==> final(self)@ == old(self)@,
            r.applied ==> final(self)@ == crossfaded(
                old(self)@,
                prev,
                next,
                ((prev_side->0).content_id, (prev_side->0).run@),
                ((next_side->0).content_id, (next_side->0).run@),
                (XfadeSpan {
                    lead: reach_of(half, *prev_side->0, *next_side->0).0,
                    tail: reach_of(half, *prev_side->0, *next_side->0).1,
                    ramp,
                }),
            ),
    {
        let shortest = Beat { bits: SHORTEST };
        match (prev_side, next_side) {
            (Some(p), Some(n)) => {
                if ramp.le(shortest) {
                    return Crossfade { applied: false, changed: cut };
                }
                let (lead, tail) = xfade_reach(half, p, n);
                let span = XfadeSpan { lead, tail, ramp };
                self.fade_run(p.content_id, &p.run, true, span);
                self.fade_run(n.content_id, &n.run, false, span);
                self.set_xfade_tail(prev, tail);
                self.set_xfade_lead(next, lead);
                Crossfade { applied: true, changed: true }
            },
            _ => Crossfade { applied: false, changed: cut },
        }
    }

    fn set_xfade_tail(&mut self, key: ClipKey, tail: Beat)
        ensures
            final(self)@ == with_clip_at(old(self)@, key, |x: Clip| Clip { xfade_tail_beats: tail, ..x }),
    {
        let ghost before = self@;
        let ghost after = with_clip_at(before, key, |x: Clip| Clip { xfade_tail_beats: tail, ..x });
        let found = self.find_clip(key);
        if let Some((t, c)) = found {
            assert(before.tracks[t as int] == self.tracks@[t as int]@);
            let track = &mut self.tracks[t];
            track.clips[c].xfade_tail_beats = tail;
            proof {
                assert(self.tracks@[t as int]@ =~= after.tracks[t as int]);
                assert(self@.tracks =~= after.tracks);
                assert(self@ =~= after);
            }
        }
    }

    fn set_xfade_lead(&mut self, key: ClipKey, lead: Beat)
        ensures
            final(self)@ == with_clip_at(old(self)@, key, |x: Clip| Clip { xfade_lead_beats: lead, ..x }),
    {
        let ghost before = self@;
        let ghost after = with_clip_at(before, key, |x: Clip| Clip { xfade_lead_beats: lead, ..x });
        let found = self.find_clip(key);
        if let Some((t, c)) = found {
            assert(before.tracks[t as int] == self.tracks@[t as int]@);
            let track = &mut self.tracks[t];
            track.clips[c].xfade_lead_beats = lead;
            proof {
                assert(self.tracks@[t as int]@ =~= after.tracks[t as int]);
                assert(self@.tracks =~= after.tracks);
                assert(self@ =~= after);
            }
        }
    }
}

// ---------------------------------------------------------------------------
// Contents stay apart
// ---------------------------------------------------------------------------

proof fn lemma_same_ids(a: SongModel, b: SongModel)
    requires
        a.contents_once(),
        time_paste::content_ids(a) == time_paste::content_ids(b),
    ensures
        b.contents_once(),
{
    let ids = time_paste::content_ids(a);
    assert(ids.len() == a.clip_contents.len() && time_paste::content_ids(b).len() == b.clip_contents.len());
    assert forall|i: int, j: int| 0 <= i < j < b.clip_contents.len() implies (#[trigger] b.clip_contents[i]).0 != (
    #[trigger] b.clip_contents[j]).0 by {
        assert(b.clip_contents[i].0 == ids[i] && b.clip_contents[j].0 == ids[j]);
        assert(a.clip_contents[i].0 == ids[i] && a.clip_contents[j].0 == ids[j]);
    }
}

proof fn lemma_run_keeps_ids(song: SongModel, content_id: u32, run: Seq<usize>, g: spec_fn(ContentEvent) -> ContentEvent)
    ensures
        time_paste::content_ids(with_run_edited(song, content_id, run, g)) == time_paste::content_ids(song),
{
    let ids = time_paste::content_ids(song);
    if let Some(v) = audio_events(song, content_id) {
        lemma_place_is_there(ids, content_id, 0);
        assert(time_paste::content_ids(with_run_edited(song, content_id, run, g)) =~= ids);
    }
}

proof fn lemma_place_is_there(s: Seq<u32>, id: u32, from: int)
    requires
        0 <= from <= s.len(),
    ensures
        ids::place_from(s, id, from) matches Some(k) ==> from <= k < s.len() && s[k] == id,
    decreases s.len() - from,
{
    if from < s.len() {
        lemma_place_is_there(s, id, from + 1);
    }
}

/// Crossfading keeps every content under an id of its own.
pub proof fn law_crossfading_keeps_contents_once(
    song: SongModel,
    prev: ClipKey,
    next: ClipKey,
    prev_side: (u32, Seq<usize>),
    next_side: (u32, Seq<usize>),
    span: XfadeSpan,
)
    requires
        song.contents_once(),
    ensures
        crossfaded(song, prev, next, prev_side, next_side, span).contents_once(),
{
    let out = |e: ContentEvent| faded(e, true, span);
    let a = with_run_edited(song, prev_side.0, prev_side.1, out);
    lemma_run_keeps_ids(song, prev_side.0, prev_side.1, out);
    lemma_run_keeps_ids(a, next_side.0, next_side.1, |e: ContentEvent| faded(e, false, span));
    lemma_same_ids(song, crossfaded(song, prev, next, prev_side, next_side, span));
}

} // verus!
