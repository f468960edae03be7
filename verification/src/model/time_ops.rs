//! Cutting, copying and pasting time.
//!
//! What a range of time holds is copied with it, relative to its start, and can
//! be pasted elsewhere or in another project. How far things are moved is for
//! the caller to compute; what is taken along, what is dropped and what is
//! shared is said here.

use super::automation::{AutomationClip, AutomationLane, LaneModel};
use super::clip::{Clip, ClipContent, ContentModel};
use super::ids;
use super::ids::hand_out;
use super::lookup;
use super::song;
use super::song::{Song, SongModel};
use super::time_selection::EPSILON;
use super::track::TrackModel;
use super::track_ids;
use super::MASTER_TRACK_ID;
use crate::beat::Beat;
use crate::model;
use crate::scale::ScaleChange;
use vstd::prelude::*;

verus! {

// ---------------------------------------------------------------------------
// What is copied
// ---------------------------------------------------------------------------

/// A part of the song that has a name.
#[derive(Debug)]
pub struct Section {
    pub id: u32,
    pub name: String,
    pub start_beat: Beat,
    pub len_beats: Beat,
    /// Where the section ends: its start plus its length.
    pub end_beat: Beat,
}

/// The model of a section.
#[verifier::ext_equal]
pub struct SectionModel {
    pub id: u32,
    pub name: Seq<char>,
    pub start_beat: Beat,
    pub len_beats: Beat,
    pub end_beat: Beat,
}

impl View for Section {
    type V = SectionModel;

    open spec fn view(&self) -> SectionModel {
        SectionModel {
            id: self.id,
            name: self.name@,
            start_beat: self.start_beat,
            len_beats: self.len_beats,
            end_beat: self.end_beat,
        }
    }
}

/// A content with its id and its name.
#[derive(Debug)]
pub struct CopiedContent {
    pub id: u32,
    pub content: ClipContent,
    pub name: String,
}

/// The model of a content with its id and its name.
#[verifier::ext_equal]
pub struct CopiedModel {
    pub id: u32,
    pub content: ContentModel,
    pub name: Seq<char>,
}

impl View for CopiedContent {
    type V = CopiedModel;

    open spec fn view(&self) -> CopiedModel {
        CopiedModel { id: self.id, content: self.content@, name: self.name@ }
    }
}

/// What a range of time holds. Positions count from the start of the range.
#[derive(Debug)]
pub struct TimeRangeCopy {
    /// How long the range is.
    pub span_beats: Beat,
    /// Clips with the tracks they are on.
    pub clips: Vec<(u32, Clip)>,
    /// Clips of lanes with the tracks and lanes they are on;
    /// [`MASTER_TRACK_ID`] for lanes of the song.
    pub automation: Vec<(u32, u32, AutomationClip)>,
    /// What the clips show. An id is there once, see
    /// [`TimeRangeModel::contents_once`]. The sources of sounds and pictures that
    /// contents refer to are not among them: they are carried beside the copy, and a
    /// project takes them in before it is pasted there.
    pub contents: Vec<CopiedContent>,
    pub scale_changes: Vec<ScaleChange>,
    /// The sections that lie within the range.
    pub sections: Vec<Section>,
}

/// The model of what a range of time holds.
#[verifier::ext_equal]
pub struct TimeRangeModel {
    pub span_beats: Beat,
    pub clips: Seq<(u32, Clip)>,
    pub automation: Seq<(u32, u32, AutomationClip)>,
    pub contents: Seq<CopiedModel>,
    pub scale_changes: Seq<ScaleChange>,
    pub sections: Seq<SectionModel>,
}

impl TimeRangeModel {
    /// Whether every content has an id of its own.
    pub open spec fn contents_once(self) -> bool {
        copies_once(self.contents)
    }
}

/// Whether every content has an id of its own.
pub open spec fn copies_once(contents: Seq<CopiedModel>) -> bool {
    forall|i: int, j: int| 0 <= i < j < contents.len() ==> (#[trigger] contents[i]).id != (#[trigger] contents[j]).id
}

impl View for TimeRangeCopy {
    type V = TimeRangeModel;

    open spec fn view(&self) -> TimeRangeModel {
        TimeRangeModel {
            span_beats: self.span_beats,
            clips: self.clips@,
            automation: self.automation@,
            contents: model::models(self.contents@),
            scale_changes: self.scale_changes@,
            sections: model::models(self.sections@),
        }
    }
}

// ---------------------------------------------------------------------------
// What came from outside
// ---------------------------------------------------------------------------

/// Whether a piece of time makes sense: it starts at or after zero and has a
/// length, and what it shows starts somewhere.
pub open spec fn is_sane(start: Beat, len: Beat, offset: Beat) -> bool {
    &&& start.is_finite()
    &&& (Beat { bits: 0 }).le(start)
    &&& len.is_finite()
    &&& (Beat { bits: 0 }).lt(len)
    &&& offset.is_finite()
}

/// The clips that make sense.
pub open spec fn sane_clips(s: Seq<(u32, Clip)>) -> Seq<(u32, Clip)> {
    s.filter(|c: (u32, Clip)| is_sane(c.1.start_beat, c.1.length_beats, c.1.content_offset_beats))
}

/// The clips of lanes that make sense.
pub open spec fn sane_automation(s: Seq<(u32, u32, AutomationClip)>) -> Seq<(u32, u32, AutomationClip)> {
    s.filter(
        |c: (u32, u32, AutomationClip)| is_sane(c.2.start_beat, c.2.length_beats, c.2.content_offset_beats),
    )
}

/// The changes of key that make sense.
pub open spec fn sane_changes(s: Seq<ScaleChange>) -> Seq<ScaleChange> {
    s.filter(|c: ScaleChange| c.beat.is_finite() && (Beat { bits: 0 }).le(c.beat))
}

/// The sections that make sense.
pub open spec fn sane_sections(s: Seq<SectionModel>) -> Seq<SectionModel> {
    s.filter(|x: SectionModel| is_sane(x.start_beat, x.len_beats, Beat { bits: 0 }))
}

/// What makes sense of a copy.
pub open spec fn sane_copy(c: TimeRangeModel) -> TimeRangeModel {
    TimeRangeModel {
        clips: sane_clips(c.clips),
        automation: sane_automation(c.automation),
        scale_changes: sane_changes(c.scale_changes),
        sections: sane_sections(c.sections),
        ..c
    }
}

fn makes_sense(start: Beat, len: Beat, offset: Beat) -> (r: bool)
    ensures
        r == is_sane(start, len, offset),
{
    start.is_finite() && Beat::zero().le(start) && len.is_finite() && Beat::zero().lt(len) && offset.is_finite()
}

proof fn lemma_filter_push<A>(s: Seq<A>, i: int, p: spec_fn(A) -> bool)
    requires
        0 <= i < s.len(),
    ensures
        s.take(i + 1).filter(p) == if p(s[i]) {
            s.take(i).filter(p).push(s[i])
        } else {
            s.take(i).filter(p)
        },
{
    reveal(Seq::filter);
    assert(s.take(i + 1).drop_last() =~= s.take(i));
    assert(s.take(i + 1).last() == s[i]);
}

impl TimeRangeCopy {
    /// What makes sense of a copy that came from outside. None if the range has
    /// no length.
    pub fn sanitized(self) -> (r: Option<TimeRangeCopy>)
        ensures
            r is Some == (self@.span_beats.is_finite() && (Beat { bits: 0 }).lt(self@.span_beats)),
            r matches Some(c) ==> c@ == sane_copy(self@) && c@.contents_once() == self@.contents_once(),
    {
        if !self.span_beats.is_finite() || !Beat::zero().lt(self.span_beats) {
            return None;
        }
        let ghost whole = self@;
        let TimeRangeCopy { span_beats, clips, automation, contents, scale_changes, sections } = self;
        let ghost p = |c: (u32, Clip)| is_sane(c.1.start_beat, c.1.length_beats, c.1.content_offset_beats);
        let ghost q = |c: (u32, u32, AutomationClip)|
            is_sane(c.2.start_beat, c.2.length_beats, c.2.content_offset_beats);
        let ghost v = |c: ScaleChange| c.beat.is_finite() && (Beat { bits: 0 }).le(c.beat);
        let ghost w = |x: SectionModel| is_sane(x.start_beat, x.len_beats, Beat { bits: 0 });
        let mut kept: Vec<(u32, Clip)> = Vec::new();
        let mut i: usize = 0;
        assert(kept@ =~= clips@.take(0).filter(p)) by {
            reveal(Seq::filter);
        }
        while i < clips.len()
            invariant
                p == (|c: (u32, Clip)| is_sane(c.1.start_beat, c.1.length_beats, c.1.content_offset_beats)),
                i <= clips@.len(),
                kept@ == clips@.take(i as int).filter(p),
            decreases clips@.len() - i,
        {
            let c = clips[i];
            proof {
                lemma_filter_push(clips@, i as int, p);
            }
            if makes_sense(c.1.start_beat, c.1.length_beats, c.1.content_offset_beats) {
                kept.push(c);
            }
            i += 1;
        }
        assert(clips@.take(i as int) =~= clips@);
        let mut kept_automation: Vec<(u32, u32, AutomationClip)> = Vec::new();
        let mut j: usize = 0;
        assert(kept_automation@ =~= automation@.take(0).filter(q)) by {
            reveal(Seq::filter);
        }
        while j < automation.len()
            invariant
                q == (|c: (u32, u32, AutomationClip)|
                    is_sane(c.2.start_beat, c.2.length_beats, c.2.content_offset_beats)),
                j <= automation@.len(),
                kept_automation@ == automation@.take(j as int).filter(q),
            decreases automation@.len() - j,
        {
            let c = automation[j];
            proof {
                lemma_filter_push(automation@, j as int, q);
            }
            if makes_sense(c.2.start_beat, c.2.length_beats, c.2.content_offset_beats) {
                kept_automation.push(c);
            }
            j += 1;
        }
        assert(automation@.take(j as int) =~= automation@);
        let mut kept_changes: Vec<ScaleChange> = Vec::new();
        let mut k: usize = 0;
        assert(kept_changes@ =~= scale_changes@.take(0).filter(v)) by {
            reveal(Seq::filter);
        }
        while k < scale_changes.len()
            invariant
                v == (|c: ScaleChange| c.beat.is_finite() && (Beat { bits: 0 }).le(c.beat)),
                k <= scale_changes@.len(),
                kept_changes@ == scale_changes@.take(k as int).filter(v),
            decreases scale_changes@.len() - k,
        {
            let c = scale_changes[k];
            proof {
                lemma_filter_push(scale_changes@, k as int, v);
            }
            if c.beat.is_finite() && Beat::zero().le(c.beat) {
                kept_changes.push(c);
            }
            k += 1;
        }
        assert(scale_changes@.take(k as int) =~= scale_changes@);
        let kept_sections = keep_sane_sections(sections);
        let r = TimeRangeCopy {
            span_beats,
            clips: kept,
            automation: kept_automation,
            contents,
            scale_changes: kept_changes,
            sections: kept_sections,
        };
        assert(r@ =~= sane_copy(whole));
        Some(r)
    }
}

fn keep_sane_sections(sections: Vec<Section>) -> (r: Vec<Section>)
    ensures
        model::models(r@) == sane_sections(model::models(sections@)),
{
    let ghost all = model::models(sections@);
    let ghost source = sections@;
    let ghost w = |x: SectionModel| is_sane(x.start_beat, x.len_beats, Beat { bits: 0 });
    let mut kept: Vec<Section> = Vec::new();
    assert(model::models(kept@) =~= all.take(0).filter(w)) by {
        reveal(Seq::filter);
    }
    for section in walk: sections
        invariant
            all == model::models(source),
            walk.seq() == source,
            w == (|x: SectionModel| is_sane(x.start_beat, x.len_beats, Beat { bits: 0 })),
            model::models(kept@) == all.take(walk.index()).filter(w),
    {
        let ghost i = walk.index();
        let ghost before = kept@;
        proof {
            assert(all[i] == source[i]@);
            lemma_filter_push(all, i, w);
        }
        if makes_sense(section.start_beat, section.len_beats, Beat::zero()) {
            let ghost one = section@;
            kept.push(section);
            assert(model::models(kept@) =~= model::models(before).push(one));
        }
    }
    assert(all.take(all.len() as int) =~= all);
    kept
}

/// What makes sense does so still: a copy that was sanitised is left alone.
pub proof fn law_sanitizing_is_idempotent(c: TimeRangeModel)
    ensures
        sane_copy(sane_copy(c)) == sane_copy(c),
{
    lemma_filter_twice(
        c.clips,
        |c: (u32, Clip)| is_sane(c.1.start_beat, c.1.length_beats, c.1.content_offset_beats),
    );
    lemma_filter_twice(
        c.automation,
        |c: (u32, u32, AutomationClip)| is_sane(c.2.start_beat, c.2.length_beats, c.2.content_offset_beats),
    );
    lemma_filter_twice(c.scale_changes, |c: ScaleChange| c.beat.is_finite() && (Beat { bits: 0 }).le(c.beat));
    lemma_filter_twice(c.sections, |x: SectionModel| is_sane(x.start_beat, x.len_beats, Beat { bits: 0 }));
    assert(sane_copy(sane_copy(c)) =~= sane_copy(c));
}

proof fn lemma_filter_twice<A>(s: Seq<A>, p: spec_fn(A) -> bool)
    ensures
        s.filter(p).filter(p) == s.filter(p),
    decreases s.len(),
{
    reveal(Seq::filter);
    if s.len() > 0 {
        let front = s.drop_last();
        lemma_filter_twice(front, p);
        if p(s.last()) {
            let kept = front.filter(p).push(s.last());
            assert(kept.drop_last() =~= front.filter(p));
            assert(kept.last() == s.last());
        }
    }
}

// ---------------------------------------------------------------------------
// Copying
// ---------------------------------------------------------------------------

/// What a clip from `s` to `e` is reckoned with when the range from `a` to `b` is
/// copied. Which of these sums come into play is decided by [`part_of`].
#[derive(Clone, Copy, Debug, PartialEq, Eq, Structural)]
pub struct ClipSums {
    /// `s` and a little.
    pub start_tolerance: Beat,
    /// `s - a`.
    pub start_in_range: Beat,
    /// `e - a`.
    pub end_in_range: Beat,
    /// `e - s`.
    pub length: Beat,
    /// `b - s`.
    pub length_to_edge: Beat,
    /// `(s - a) + (e - s)`.
    pub end_of_whole: Beat,
    /// `(s - a) + (b - s)`.
    pub end_of_head: Beat,
    /// Where in the content the clip is at `a`: where it starts there, and `a - s`.
    pub offset_at_edge: Beat,
}

/// A range of time, with how long it is and its edges with some tolerance.
#[derive(Clone, Copy, Debug, PartialEq, Eq, Structural)]
pub struct TimeRange {
    pub start: Beat,
    pub end: Beat,
    pub span: Beat,
    /// A little after the start.
    pub start_tolerance: Beat,
    /// A little before the start.
    pub outer_start: Beat,
    /// A little after the end.
    pub outer_end: Beat,
}

/// What the things of a song are reckoned with when a range is copied.
pub struct RangeSums {
    /// By track and clip.
    pub clips: Vec<Vec<ClipSums>>,
    /// By track, lane and clip.
    pub lanes: Vec<Vec<Vec<ClipSums>>>,
    /// By lane and clip, of the song.
    pub song_lanes: Vec<Vec<ClipSums>>,
    /// Where the changes of key are, counted from the start of the range.
    pub scale_changes: Vec<Beat>,
    /// Where the sections start and end, counted from the start of the range.
    pub sections: Vec<(Beat, Beat)>,
}

/// The part of a clip that lies within a range, counted from its start.
#[derive(Clone, Copy, Debug, PartialEq, Eq, Structural)]
pub struct Crop {
    /// Where in the content the part starts.
    pub offset: Beat,
    pub start: Beat,
    pub length: Beat,
    pub end: Beat,
}

/// Whether a clip starts before a range; the range is what counts if the clip
/// starts nowhere.
pub open spec fn starts_before(start: Beat, range: TimeRange) -> bool {
    start.is_nan() || start.lt(range.start)
}

/// Whether a clip goes on behind a range; the range is what counts if the clip
/// ends nowhere.
pub open spec fn goes_on_behind(end: Beat, range: TimeRange) -> bool {
    end.is_nan() || range.end.lt(end)
}

/// The later of the starts of a clip and a range, with some tolerance.
pub open spec fn later_start_tolerance(start: Beat, range: TimeRange, sums: ClipSums) -> Beat {
    if starts_before(start, range) {
        range.start_tolerance
    } else {
        sums.start_tolerance
    }
}

/// The earlier of the ends of a clip and a range.
pub open spec fn earlier_end(end: Beat, range: TimeRange) -> Beat {
    if goes_on_behind(end, range) {
        range.end
    } else {
        end
    }
}

/// Whether a clip has a part in a range: the earlier end comes after the later
/// start.
pub open spec fn has_part(start: Beat, end: Beat, range: TimeRange, sums: ClipSums) -> bool {
    !earlier_end(end, range).le(later_start_tolerance(start, range, sums))
}

/// The part of a clip that lies within a range, if it has one: from the later
/// start to the earlier end.
pub open spec fn part_of(start: Beat, end: Beat, offset: Beat, range: TimeRange, sums: ClipSums) -> Option<Crop> {
    if !has_part(start, end, range, sums) {
        None
    } else if starts_before(start, range) && goes_on_behind(end, range) {
        Some(Crop { offset: sums.offset_at_edge, start: Beat { bits: 0 }, length: range.span, end: range.span })
    } else if starts_before(start, range) {
        Some(
            Crop {
                offset: sums.offset_at_edge,
                start: Beat { bits: 0 },
                length: sums.end_in_range,
                end: sums.end_in_range,
            },
        )
    } else if goes_on_behind(end, range) {
        Some(Crop { offset, start: sums.start_in_range, length: sums.length_to_edge, end: sums.end_of_head })
    } else {
        Some(Crop { offset, start: sums.start_in_range, length: sums.length, end: sums.end_of_whole })
    }
}

fn crop(start: Beat, end: Beat, offset: Beat, range: TimeRange, sums: ClipSums) -> (r: Option<Crop>)
    ensures
        r == part_of(start, end, offset, range, sums),
{
    let before: bool = start.is_nan() || start.lt(range.start);
    let behind: bool = end.is_nan() || range.end.lt(end);
    let from = if before {
        range.start_tolerance
    } else {
        sums.start_tolerance
    };
    let to = if behind {
        range.end
    } else {
        end
    };
    if to.le(from) {
        return None;
    }
    let (length, part_end) = if before {
        if behind {
            (range.span, range.span)
        } else {
            (sums.end_in_range, sums.end_in_range)
        }
    } else if behind {
        (sums.length_to_edge, sums.end_of_head)
    } else {
        (sums.length, sums.end_of_whole)
    };
    Some(
        Crop {
            offset: if before {
                sums.offset_at_edge
            } else {
                offset
            },
            start: if before {
                Beat::zero()
            } else {
                sums.start_in_range
            },
            length,
            end: part_end,
        },
    )
}

/// A part of a clip. It has no crossfades: it ends where the range ends.
pub open spec fn cropped_clip(c: Clip, crop: Crop) -> Clip {
    Clip {
        content_offset_beats: crop.offset,
        start_beat: crop.start,
        length_beats: crop.length,
        end_beat: crop.end,
        xfade_lead_beats: Beat { bits: 0 },
        xfade_tail_beats: Beat { bits: 0 },
        ..c
    }
}

/// The part of a clip that lies within a range.
pub open spec fn clip_part(c: Clip, range: TimeRange, sums: ClipSums) -> Option<Crop> {
    part_of(c.start_beat, c.end_beat, c.content_offset_beats, range, sums)
}

/// A part of a clip of a lane.
pub open spec fn cropped_automation(c: AutomationClip, crop: Crop) -> AutomationClip {
    AutomationClip {
        content_offset_beats: crop.offset,
        start_beat: crop.start,
        length_beats: crop.length,
        end_beat: crop.end,
        ..c
    }
}

/// The part of a clip of a lane that lies within a range.
pub open spec fn automation_part(c: AutomationClip, range: TimeRange, sums: ClipSums) -> Option<Crop> {
    part_of(c.start_beat, c.end_beat, c.content_offset_beats, range, sums)
}

/// The parts of the first `n` clips of a track.
pub open spec fn parts_of_clips(id: u32, clips: Seq<Clip>, range: TimeRange, sums: Seq<ClipSums>, n: nat) -> Seq<
    (u32, Clip),
>
    decreases n,
{
    if n == 0 {
        Seq::empty()
    } else {
        let front = parts_of_clips(id, clips, range, sums, (n - 1) as nat);
        match clip_part(clips[n - 1], range, sums[n - 1]) {
            Some(crop) => front.push((id, cropped_clip(clips[n - 1], crop))),
            None => front,
        }
    }
}

/// The parts of the first `n` clips of a lane.
pub open spec fn parts_of_lane(
    id: u32,
    lane: u32,
    clips: Seq<AutomationClip>,
    range: TimeRange,
    sums: Seq<ClipSums>,
    n: nat,
) -> Seq<(u32, u32, AutomationClip)>
    decreases n,
{
    if n == 0 {
        Seq::empty()
    } else {
        let front = parts_of_lane(id, lane, clips, range, sums, (n - 1) as nat);
        match automation_part(clips[n - 1], range, sums[n - 1]) {
            Some(crop) => front.push((id, lane, cropped_automation(clips[n - 1], crop))),
            None => front,
        }
    }
}

/// The parts of the clips of the first `n` lanes.
pub open spec fn parts_of_lanes(id: u32, lanes: Seq<LaneModel>, range: TimeRange, sums: Seq<Seq<ClipSums>>, n: nat) -> Seq<
    (u32, u32, AutomationClip),
>
    decreases n,
{
    if n == 0 {
        Seq::empty()
    } else {
        let lane = lanes[n - 1];
        parts_of_lanes(id, lanes, range, sums, (n - 1) as nat) + parts_of_lane(
            id,
            lane.id,
            lane.clips,
            range,
            sums[n - 1],
            lane.clips.len(),
        )
    }
}

/// The parts of the clips of the first `n` tracks.
pub open spec fn clips_of_tracks(tracks: Seq<TrackModel>, range: TimeRange, sums: Seq<Seq<ClipSums>>, n: nat) -> Seq<(u32, Clip)>
    decreases n,
{
    if n == 0 {
        Seq::empty()
    } else {
        let t = tracks[n - 1];
        clips_of_tracks(tracks, range, sums, (n - 1) as nat) + parts_of_clips(t.id, t.clips, range, sums[n - 1], t.clips.len())
    }
}

/// The parts of the clips of the lanes of the first `n` tracks.
pub open spec fn lanes_of_tracks(tracks: Seq<TrackModel>, range: TimeRange, sums: Seq<Seq<Seq<ClipSums>>>, n: nat) -> Seq<
    (u32, u32, AutomationClip),
>
    decreases n,
{
    if n == 0 {
        Seq::empty()
    } else {
        let t = tracks[n - 1];
        lanes_of_tracks(tracks, range, sums, (n - 1) as nat) + parts_of_lanes(
            t.id,
            t.automation_lanes,
            range,
            sums[n - 1],
            t.automation_lanes.len(),
        )
    }
}

/// The changes of key within a range, each where it is there.
pub open spec fn changes_within(changes: Seq<ScaleChange>, moved: Seq<Beat>, range: TimeRange, n: nat) -> Seq<
    ScaleChange,
>
    decreases n,
{
    if n == 0 {
        Seq::empty()
    } else {
        let front = changes_within(changes, moved, range, (n - 1) as nat);
        let c = changes[n - 1];
        if range.start.le(c.beat) && c.beat.lt(range.end) {
            front.push(ScaleChange { beat: moved[n - 1], ..c })
        } else {
            front
        }
    }
}

/// A section within a range, not before its start. `at` is where it starts and ends
/// there.
pub open spec fn section_at(s: SectionModel, at: (Beat, Beat)) -> SectionModel {
    if (Beat { bits: 0 }).lt(at.0) {
        SectionModel { start_beat: at.0, end_beat: at.1, ..s }
    } else {
        SectionModel { start_beat: Beat { bits: 0 }, end_beat: s.len_beats, ..s }
    }
}

/// The sections that lie within a range, each where it is there.
pub open spec fn sections_within(sections: Seq<SectionModel>, moved: Seq<(Beat, Beat)>, range: TimeRange, n: nat) -> Seq<
    SectionModel,
>
    decreases n,
{
    if n == 0 {
        Seq::empty()
    } else {
        let front = sections_within(sections, moved, range, (n - 1) as nat);
        let s = sections[n - 1];
        if range.outer_start.le(s.start_beat) && s.end_beat.le(range.outer_end) {
            front.push(section_at(s, moved[n - 1]))
        } else {
            front
        }
    }
}

/// The name of a content; none if it has none.
pub open spec fn name_of(names: Seq<(u32, Seq<char>)>, id: u32, from: int) -> Seq<char>
    decreases names.len() - from,
{
    if from < 0 || from >= names.len() {
        Seq::empty()
    } else if names[from].0 == id {
        names[from].1
    } else {
        name_of(names, id, from + 1)
    }
}

/// The place of a content.
pub open spec fn content_place(contents: Seq<(u32, ContentModel)>, id: u32, from: int) -> Option<int>
    decreases contents.len() - from,
{
    if from < 0 || from >= contents.len() {
        None
    } else if contents[from].0 == id {
        Some(from)
    } else {
        content_place(contents, id, from + 1)
    }
}

/// The contents with the given ids, each once and with its name, in the order in
/// which they are first asked for. What is not there is left out.
pub open spec fn contents_for(
    wanted: Seq<u32>,
    contents: Seq<(u32, ContentModel)>,
    names: Seq<(u32, Seq<char>)>,
) -> Seq<CopiedModel>
    decreases wanted.len(),
{
    if wanted.len() == 0 {
        Seq::empty()
    } else {
        let front = contents_for(wanted.drop_last(), contents, names);
        let id = wanted.last();
        match content_place(contents, id, 0) {
            Some(i) => if has_copy(front, id) {
                front
            } else {
                front.push(CopiedModel { id, content: contents[i].1, name: name_of(names, id, 0) })
            },
            None => front,
        }
    }
}

/// Whether a content is among copies.
pub open spec fn has_copy(copies: Seq<CopiedModel>, id: u32) -> bool {
    exists|i: int| 0 <= i < copies.len() && (#[trigger] copies[i]).id == id
}

proof fn lemma_contents_once(wanted: Seq<u32>, contents: Seq<(u32, ContentModel)>, names: Seq<(u32, Seq<char>)>)
    ensures
        copies_once(contents_for(wanted, contents, names)),
    decreases wanted.len(),
{
    if wanted.len() > 0 {
        lemma_contents_once(wanted.drop_last(), contents, names);
    }
}

/// The contents that clips show.
pub open spec fn shown_by(clips: Seq<(u32, Clip)>, automation: Seq<(u32, u32, AutomationClip)>) -> Seq<u32> {
    clips.map_values(|c: (u32, Clip)| c.1.content_id) + automation.map_values(
        |c: (u32, u32, AutomationClip)| c.2.content_id,
    )
}

/// Sums by lane.
pub open spec fn by_lane(v: Seq<Vec<ClipSums>>) -> Seq<Seq<ClipSums>> {
    v.map_values(|x: Vec<ClipSums>| x@)
}

/// Sums by track and lane.
pub open spec fn by_track(v: Seq<Vec<Vec<ClipSums>>>) -> Seq<Seq<Seq<ClipSums>>> {
    v.map_values(|x: Vec<Vec<ClipSums>>| by_lane(x@))
}

/// Names by content.
pub open spec fn named(v: Seq<(u32, String)>) -> Seq<(u32, Seq<char>)> {
    v.map_values(|x: (u32, String)| (x.0, x.1@))
}

/// Whether there are sums for every clip of lanes.
pub open spec fn fits_lanes(sums: Seq<Seq<ClipSums>>, lanes: Seq<LaneModel>) -> bool {
    &&& sums.len() == lanes.len()
    &&& forall|i: int| 0 <= i < lanes.len() ==> sums[i].len() == (#[trigger] lanes[i]).clips.len()
}

impl RangeSums {
    /// Whether there are sums for every clip of a song, and a place for every
    /// change of key and every section.
    pub open spec fn fits(self, song: SongModel, changes: nat, sections: nat) -> bool {
        &&& self.clips@.len() == song.tracks.len()
        &&& forall|i: int| 0 <= i < song.tracks.len() ==> self.clips@[i]@.len() == (#[trigger] song.tracks[i]).clips.len()
        &&& self.lanes@.len() == song.tracks.len()
        &&& forall|i: int|
            0 <= i < song.tracks.len() ==> fits_lanes(
                by_lane(self.lanes@[i]@),
                (#[trigger] song.tracks[i]).automation_lanes,
            )
        &&& fits_lanes(by_lane(self.song_lanes@), song.song_lanes)
        &&& self.scale_changes@.len() == changes
        &&& self.sections@.len() == sections
    }
}

/// What a range of a song holds.
pub open spec fn copied(
    song: SongModel,
    range: TimeRange,
    sums: RangeSums,
    changes: Seq<ScaleChange>,
    sections: Seq<SectionModel>,
    names: Seq<(u32, Seq<char>)>,
) -> TimeRangeModel {
    let clips = clips_of_tracks(song.tracks, range, by_lane(sums.clips@), song.tracks.len());
    let automation = lanes_of_tracks(song.tracks, range, by_track(sums.lanes@), song.tracks.len()) + parts_of_lanes(
        MASTER_TRACK_ID,
        song.song_lanes,
        range,
        by_lane(sums.song_lanes@),
        song.song_lanes.len(),
    );
    TimeRangeModel {
        span_beats: range.span,
        clips,
        automation,
        contents: contents_for(shown_by(clips, automation), song.clip_contents, names),
        scale_changes: changes_within(changes, sums.scale_changes@, range, changes.len()),
        sections: sections_within(sections, sums.sections@, range, sections.len()),
    }
}

fn copy_clips(id: u32, clips: &Vec<Clip>, range: TimeRange, sums: &Vec<ClipSums>, out: &mut Vec<(u32, Clip)>)
    requires
        sums@.len() == clips@.len(),
    ensures
        final(out)@ == old(out)@ + parts_of_clips(id, clips@, range, sums@, clips@.len()),
{
    let ghost before = out@;
    let mut i: usize = 0;
    assert(out@ =~= before + parts_of_clips(id, clips@, range, sums@, 0));
    while i < clips.len()
        invariant
            sums@.len() == clips@.len(),
            i <= clips@.len(),
            out@ == before + parts_of_clips(id, clips@, range, sums@, i as nat),
        decreases clips@.len() - i,
    {
        let c = clips[i];
        let part = crop(c.start_beat, c.end_beat, c.content_offset_beats, range, sums[i]);
        if let Some(crop) = part {
            let cropped = Clip {
                id: c.id,
                content_id: c.content_id,
                muted: c.muted,
                content_offset_beats: crop.offset,
                start_beat: crop.start,
                length_beats: crop.length,
                end_beat: crop.end,
                xfade_lead_beats: Beat::zero(),
                xfade_tail_beats: Beat::zero(),
            };
            out.push((id, cropped));
        }
        i += 1;
        assert(out@ =~= before + parts_of_clips(id, clips@, range, sums@, i as nat));
    }
}

fn crop_automation_lane(
    lane: &AutomationLane,
    track_id: u32,
    range: TimeRange,
    sums: &Vec<ClipSums>,
    out: &mut Vec<(u32, u32, AutomationClip)>,
)
    requires
        sums@.len() == lane@.clips.len(),
    ensures
        final(out)@ == old(out)@ + parts_of_lane(track_id, lane@.id, lane@.clips, range, sums@, lane@.clips.len()),
{
    let ghost before = out@;
    let mut i: usize = 0;
    assert(out@ =~= before + parts_of_lane(track_id, lane@.id, lane@.clips, range, sums@, 0));
    while i < lane.clips.len()
        invariant
            sums@.len() == lane@.clips.len(),
            i <= lane@.clips.len(),
            out@ == before + parts_of_lane(track_id, lane@.id, lane@.clips, range, sums@, i as nat),
        decreases lane@.clips.len() - i,
    {
        let c = lane.clips[i];
        let part = crop(c.start_beat, c.end_beat, c.content_offset_beats, range, sums[i]);
        if let Some(crop) = part {
            let cropped = AutomationClip {
                id: c.id,
                content_id: c.content_id,
                content_offset_beats: crop.offset,
                start_beat: crop.start,
                length_beats: crop.length,
                end_beat: crop.end,
            };
            out.push((track_id, lane.id, cropped));
        }
        i += 1;
        assert(out@ =~= before + parts_of_lane(track_id, lane@.id, lane@.clips, range, sums@, i as nat));
    }
}

fn copy_lane_parts(
    lanes: &Vec<AutomationLane>,
    track_id: u32,
    range: TimeRange,
    sums: &Vec<Vec<ClipSums>>,
    out: &mut Vec<(u32, u32, AutomationClip)>,
)
    requires
        fits_lanes(by_lane(sums@), model::models(lanes@)),
    ensures
        final(out)@ == old(out)@ + parts_of_lanes(track_id, model::models(lanes@), range, by_lane(sums@), lanes@.len()),
{
    let ghost before = out@;
    let ghost lm = model::models(lanes@);
    let ghost by = by_lane(sums@);
    let mut i: usize = 0;
    assert(out@ =~= before + parts_of_lanes(track_id, lm, range, by, 0));
    while i < lanes.len()
        invariant
            lm == model::models(lanes@),
            by == by_lane(sums@),
            fits_lanes(by, lm),
            i <= lanes@.len(),
            out@ == before + parts_of_lanes(track_id, lm, range, by, i as nat),
        decreases lanes@.len() - i,
    {
        proof {
            assert(lm[i as int] == lanes@[i as int]@);
            assert(by[i as int] == sums@[i as int]@);
        }
        crop_automation_lane(&lanes[i], track_id, range, &sums[i], out);
        i += 1;
        assert(out@ =~= before + parts_of_lanes(track_id, lm, range, by, i as nat));
    }
}

fn find_content(contents: &Vec<(u32, ClipContent)>, id: u32) -> (r: Option<usize>)
    ensures
        match r {
            Some(i) => i < contents@.len() && content_place(song::content_models(contents@), id, 0) == Some(i as int),
            None => content_place(song::content_models(contents@), id, 0) is None,
        },
{
    let ghost cm = song::content_models(contents@);
    let mut i: usize = 0;
    while i < contents.len()
        invariant
            cm == song::content_models(contents@),
            i <= contents@.len(),
            content_place(cm, id, 0) == content_place(cm, id, i as int),
        decreases contents@.len() - i,
    {
        assert(cm[i as int].0 == contents@[i as int].0);
        if contents[i].0 == id {
            return Some(i);
        }
        i += 1;
    }
    None
}

fn find_name(names: &Vec<(u32, String)>, id: u32) -> (r: String)
    ensures
        r@ == name_of(named(names@), id, 0),
{
    let ghost nm = named(names@);
    let mut i: usize = 0;
    while i < names.len()
        invariant
            nm == named(names@),
            i <= names@.len(),
            name_of(nm, id, 0) == name_of(nm, id, i as int),
        decreases names@.len() - i,
    {
        assert(nm[i as int] == (names@[i as int].0, names@[i as int].1@));
        if names[i].0 == id {
            return names[i].1.clone();
        }
        i += 1;
    }
    String::new()
}

fn is_copied(copies: &Vec<CopiedContent>, id: u32) -> (r: bool)
    ensures
        r == has_copy(model::models(copies@), id),
{
    let ghost cm = model::models(copies@);
    let mut i: usize = 0;
    while i < copies.len()
        invariant
            cm == model::models(copies@),
            i <= copies@.len(),
            forall|k: int| 0 <= k < i ==> (#[trigger] cm[k]).id != id,
        decreases copies@.len() - i,
    {
        assert(cm[i as int] == copies@[i as int]@);
        if copies[i].id == id {
            return true;
        }
        i += 1;
    }
    false
}

fn copy_contents(wanted: &Vec<u32>, contents: &Vec<(u32, ClipContent)>, names: &Vec<(u32, String)>) -> (r: Vec<
    CopiedContent,
>)
    ensures
        model::models(r@) == contents_for(wanted@, song::content_models(contents@), named(names@)),
{
    let ghost cm = song::content_models(contents@);
    let ghost nm = named(names@);
    let mut r: Vec<CopiedContent> = Vec::new();
    let mut i: usize = 0;
    assert(wanted@.take(0) =~= Seq::<u32>::empty());
    assert(model::models(r@) =~= Seq::<CopiedModel>::empty());
    while i < wanted.len()
        invariant
            cm == song::content_models(contents@),
            nm == named(names@),
            i <= wanted@.len(),
            model::models(r@) == contents_for(wanted@.take(i as int), cm, nm),
        decreases wanted@.len() - i,
    {
        let id: u32 = wanted[i];
        let ghost before = r@;
        proof {
            assert(wanted@.take(i + 1).drop_last() =~= wanted@.take(i as int));
            assert(wanted@.take(i + 1).last() == id);
        }
        if let Some(at) = find_content(contents, id) {
            if !is_copied(&r, id) {
                let one = CopiedContent { id, content: contents[at].1.clone(), name: find_name(names, id) };
                proof {
                    assert(cm[at as int].1 == contents@[at as int].1@);
                }
                let ghost m = one@;
                r.push(one);
                assert(model::models(r@) =~= model::models(before).push(m));
            }
        }
        i += 1;
    }
    assert(wanted@.take(i as int) =~= wanted@);
    r
}

fn copy_changes(changes: &Vec<ScaleChange>, moved: &Vec<Beat>, range: TimeRange) -> (r: Vec<ScaleChange>)
    requires
        moved@.len() == changes@.len(),
    ensures
        r@ == changes_within(changes@, moved@, range, changes@.len()),
{
    let mut r: Vec<ScaleChange> = Vec::new();
    let mut i: usize = 0;
    while i < changes.len()
        invariant
            moved@.len() == changes@.len(),
            i <= changes@.len(),
            r@ == changes_within(changes@, moved@, range, i as nat),
        decreases changes@.len() - i,
    {
        let c = changes[i];
        if range.start.le(c.beat) && c.beat.lt(range.end) {
            r.push(ScaleChange { beat: moved[i], root: c.root, scale: c.scale });
        }
        i += 1;
    }
    r
}

fn copy_sections(sections: &Vec<Section>, moved: &Vec<(Beat, Beat)>, range: TimeRange) -> (r: Vec<Section>)
    requires
        moved@.len() == sections@.len(),
    ensures
        model::models(r@) == sections_within(model::models(sections@), moved@, range, sections@.len()),
{
    let ghost sm = model::models(sections@);
    let mut r: Vec<Section> = Vec::new();
    let mut i: usize = 0;
    assert(model::models(r@) =~= Seq::<SectionModel>::empty());
    while i < sections.len()
        invariant
            sm == model::models(sections@),
            moved@.len() == sections@.len(),
            i <= sections@.len(),
            model::models(r@) == sections_within(sm, moved@, range, i as nat),
        decreases sections@.len() - i,
    {
        let s = &sections[i];
        let ghost before = r@;
        assert(sm[i as int] == s@);
        if range.outer_start.le(s.start_beat) && s.end_beat.le(range.outer_end) {
            let inside: bool = Beat::zero().lt(moved[i].0);
            let part = Section {
                id: s.id,
                name: s.name.clone(),
                start_beat: if inside {
                    moved[i].0
                } else {
                    Beat::zero()
                },
                len_beats: s.len_beats,
                end_beat: if inside {
                    moved[i].1
                } else {
                    s.len_beats
                },
            };
            let ghost m = part@;
            r.push(part);
            assert(m == section_at(s@, moved@[i as int]));
            assert(model::models(r@) =~= model::models(before).push(m));
        }
        i += 1;
    }
    r
}

impl Song {
    /// What a range of the song holds; the song stays as it is. None if the range
    /// has no length. Of a clip that goes over an edge of the range the part within
    /// is taken, see [`part_of`]. The sources of sounds and pictures that contents
    /// refer to are not part of the copy; they are carried beside it.
    pub fn copy_time_range(
        &self,
        range: TimeRange,
        sums: &RangeSums,
        changes: &Vec<ScaleChange>,
        sections: &Vec<Section>,
        names: &Vec<(u32, String)>,
    ) -> (r: Option<TimeRangeCopy>)
        requires
            sums.fits(self@, changes@.len(), sections@.len()),
        ensures
            r is Some == (range.start.is_finite() && range.end.is_finite() && range.start.lt(range.end)),
            r matches Some(c) ==> c@.contents_once() && c@ == copied(
                self@,
                range,
                *sums,
                changes@,
                model::models(sections@),
                named(names@),
            ),
    {
        if !range.start.is_finite() || !range.end.is_finite() || !range.start.lt(range.end) {
            return None;
        }
        let ghost tracks = self@.tracks;
        let ghost cc = by_lane(sums.clips@);
        let ghost lc = by_track(sums.lanes@);
        let mut clips: Vec<(u32, Clip)> = Vec::new();
        let mut automation: Vec<(u32, u32, AutomationClip)> = Vec::new();
        let mut t: usize = 0;
        while t < self.tracks.len()
            invariant
                sums.fits(self@, changes@.len(), sections@.len()),
                tracks == self@.tracks,
                cc == by_lane(sums.clips@),
                lc == by_track(sums.lanes@),
                t <= self.tracks@.len(),
                clips@ == clips_of_tracks(tracks, range, cc, t as nat),
                automation@ == lanes_of_tracks(tracks, range, lc, t as nat),
            decreases self.tracks@.len() - t,
        {
            let track = &self.tracks[t];
            proof {
                assert(tracks[t as int] == track@);
                assert(cc[t as int] == sums.clips@[t as int]@);
                assert(lc[t as int] == by_lane(sums.lanes@[t as int]@));
            }
            copy_clips(track.id, &track.clips, range, &sums.clips[t], &mut clips);
            copy_lane_parts(&track.automation_lanes, track.id, range, &sums.lanes[t], &mut automation);
            t += 1;
        }
        copy_lane_parts(&self.song_lanes, MASTER_TRACK_ID, range, &sums.song_lanes, &mut automation);
        let mut wanted: Vec<u32> = Vec::new();
        let mut i: usize = 0;
        while i < clips.len()
            invariant
                i <= clips@.len(),
                wanted@.len() == i,
                forall|k: int| 0 <= k < i ==> #[trigger] wanted@[k] == clips@[k].1.content_id,
            decreases clips@.len() - i,
        {
            wanted.push(clips[i].1.content_id);
            i += 1;
        }
        let mut j: usize = 0;
        while j < automation.len()
            invariant
                j <= automation@.len(),
                wanted@.len() == clips@.len() + j,
                forall|k: int| 0 <= k < clips@.len() ==> #[trigger] wanted@[k] == clips@[k].1.content_id,
                forall|k: int|
                    clips@.len() <= k < clips@.len() + j ==> #[trigger] wanted@[k] == automation@[k
                        - clips@.len()].2.content_id,
            decreases automation@.len() - j,
        {
            wanted.push(automation[j].2.content_id);
            j += 1;
        }
        assert(wanted@ =~= shown_by(clips@, automation@));
        let r = TimeRangeCopy {
            span_beats: range.span,
            contents: copy_contents(&wanted, &self.clip_contents, names),
            clips,
            automation,
            scale_changes: copy_changes(changes, &sums.scale_changes, range),
            sections: copy_sections(sections, &sums.sections, range),
        };
        assert(r@ =~= copied(self@, range, *sums, changes@, model::models(sections@), named(names@)));
        proof {
            lemma_contents_once(wanted@, self@.clip_contents, named(names@));
        }
        Some(r)
    }
}

} // verus!
