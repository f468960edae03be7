//! Putting what was copied where it was decided to go.

use super::automation::{AutomationClip, AutomationLane, LaneModel};
use super::clip::{Clip, ClipContent, ContentModel};
use super::ids;
use super::ids::hand_out;
use super::lookup;
use super::song;
use super::song::{Song, SongModel};
use super::time_ops::{CopiedContent, CopiedModel, TimeRangeCopy, TimeRangeModel};
use super::time_paste;
use super::time_paste::{hand_out_sections, PastePlan, Pasted, PastedClip, PastedPart, Resolved, Ripple};
use super::time_shift;
use super::time_shift::{SongSums, SplitSums};
use super::track::TrackModel;
use super::track_ids;
use super::MASTER_TRACK_ID;
use crate::beat::Beat;
use crate::model;
use vstd::prelude::*;

verus! {

/// Where something is placed.
#[derive(Clone, Copy, Debug, PartialEq, Eq, Structural)]
pub struct Placed {
    pub start_beat: Beat,
    pub end_beat: Beat,
}

/// Where things come to lie when a copy is pasted: first those that are there, whose
/// time is opened at the place, then what was copied, in the order of the copy.
#[derive(Debug)]
pub struct PlacedTime {
    /// What the clips are split with at the place.
    pub sums: SongSums<SplitSums>,
    /// Where the clips lie that are at the place or behind it.
    pub moved: SongSums<(Beat, Beat)>,
    pub clips: Vec<Placed>,
    /// The clips of lanes.
    pub automation: Vec<Placed>,
}

/// A track with one clip more.
pub open spec fn with_clip(t: TrackModel, clip: Clip, at: Placed, content_id: u32) -> TrackModel {
    let id = ids::fresh(t.next_clip_id);
    TrackModel {
        clips: t.clips.push(
            Clip { id, start_beat: at.start_beat, end_beat: at.end_beat, content_id, ..clip },
        ),
        next_clip_id: ids::after(id),
        ..t
    }
}

/// A lane with one clip more.
pub open spec fn with_part(l: LaneModel, clip: AutomationClip, at: Placed, content_id: u32) -> LaneModel {
    let id = ids::fresh(l.next_clip_id);
    LaneModel {
        clips: l.clips.push(
            AutomationClip { id, start_beat: at.start_beat, end_beat: at.end_beat, content_id, ..clip },
        ),
        next_clip_id: ids::after(id),
        ..l
    }
}

/// Tracks after the first `n` of the planned clips were put on them.
pub open spec fn with_clips(
    tracks: Seq<TrackModel>,
    plan: Seq<PastedClip>,
    clips: Seq<(u32, Clip)>,
    at: Seq<Placed>,
    n: nat,
) -> Seq<TrackModel>
    decreases n,
{
    if n == 0 {
        tracks
    } else {
        let front = with_clips(tracks, plan, clips, at, (n - 1) as nat);
        let p = plan[n - 1];
        front.update(
            p.track as int,
            with_clip(front[p.track as int], clips[p.from as int].1, at[p.from as int], p.content_id),
        )
    }
}

/// Lanes with one clip more on one of them.
pub open spec fn lanes_with_part(
    lanes: Seq<LaneModel>,
    p: PastedPart,
    clip: AutomationClip,
    at: Placed,
) -> Seq<LaneModel> {
    lanes.update(p.lane as int, with_part(lanes[p.lane as int], clip, at, p.content_id))
}

/// A song after one of the planned clips was put on a lane.
pub open spec fn song_with_part(song: SongModel, p: PastedPart, clip: AutomationClip, at: Placed) -> SongModel {
    match p.track {
        None => SongModel { song_lanes: lanes_with_part(song.song_lanes, p, clip, at), ..song },
        Some(t) => SongModel {
            tracks: song.tracks.update(
                t as int,
                TrackModel {
                    automation_lanes: lanes_with_part(song.tracks[t as int].automation_lanes, p, clip, at),
                    ..song.tracks[t as int]
                },
            ),
            ..song
        },
    }
}

/// A song after the first `n` of the planned clips were put on lanes.
pub open spec fn with_parts(
    song: SongModel,
    plan: Seq<PastedPart>,
    parts: Seq<(u32, u32, AutomationClip)>,
    at: Seq<Placed>,
    n: nat,
) -> SongModel
    decreases n,
{
    if n == 0 {
        song
    } else {
        let front = with_parts(song, plan, parts, at, (n - 1) as nat);
        let p = plan[n - 1];
        song_with_part(front, p, parts[p.from as int].2, at[p.from as int])
    }
}

/// The place of the first content with an id, from `from` on.
pub open spec fn copied_place(contents: Seq<CopiedModel>, id: u32) -> Option<int> {
    ids::place(time_paste::copied_ids(contents), id)
}

/// The contents that are made anew.
pub open spec fn made_anew(created: Seq<(u32, u32)>, contents: Seq<CopiedModel>) -> Seq<(u32, ContentModel)> {
    Seq::new(
        created.len(),
        |k: int| (created[k].1, contents[copied_place(contents, created[k].0)->0].content),
    )
}

/// What is decided about a copy before it is pasted: what is made anew and the
/// id behind that, and what goes where.
pub open spec fn decided(
    song: SongModel,
    copy: TimeRangeModel,
    same_project: bool,
    next_content_id: u32,
) -> (Resolved, Seq<PastedClip>, Seq<PastedPart>) {
    let copies = time_paste::copied_ids(copy.contents);
    let start = time_paste::undecided(song, next_content_id);
    let (mid, clips) = time_paste::plan_clips(copy.clips, song.tracks, copies, same_project, start, copy.clips.len());
    let (end, parts) = time_paste::plan_parts(
        copy.automation,
        song,
        copies,
        same_project,
        mid,
        copy.automation.len(),
    );
    (end, clips, parts)
}

/// Whether time can be put in: there is such a place, and such a length.
pub open spec fn can_be_opened(at: Beat, len: Beat) -> bool {
    at.is_finite() && (Beat { bits: 0 }).le(at) && len.is_finite() && (Beat { bits: 0 }).lt(len)
}

/// A song in which time was put in at a place.
pub open spec fn opened(
    song: SongModel,
    at: Beat,
    sums: SongSums<SplitSums>,
    moved: SongSums<(Beat, Beat)>,
) -> SongModel {
    time_shift::moved_song(time_shift::split_song(song, at, sums), at, moved)
}

/// A song after a copy was pasted into time that was put in for it.
pub open spec fn pasted(
    song: SongModel,
    copy: TimeRangeModel,
    same_project: bool,
    next_content_id: u32,
    clips_at: Seq<Placed>,
    automation_at: Seq<Placed>,
) -> SongModel {
    let (end, clips, parts) = decided(song, copy, same_project, next_content_id);
    let placed = SongModel {
        tracks: with_clips(song.tracks, clips, copy.clips, clips_at, clips.len()),
        clip_contents: song.clip_contents + made_anew(end.created, copy.contents),
        ..song
    };
    with_parts(placed, parts, copy.automation, automation_at, parts.len())
}

// ---------------------------------------------------------------------------
// What the plan names is there
// ---------------------------------------------------------------------------

/// Whether the places of what a song and a copy hold can be counted, as they can
/// of every song and every copy in memory.
pub open spec fn can_be_counted(song: SongModel, copy: TimeRangeModel) -> bool {
    &&& song.tracks.len() <= usize::MAX
    &&& song.song_lanes.len() <= usize::MAX
    &&& forall|t: int| 0 <= t < song.tracks.len() ==> (#[trigger] song.tracks[t]).automation_lanes.len() <= usize::MAX
    &&& copy.clips.len() <= usize::MAX
    &&& copy.automation.len() <= usize::MAX
}

/// Whether every planned clip is one of the copy, for a track that is there.
pub open spec fn clips_are_there(plan: Seq<PastedClip>, tracks: nat, clips: nat) -> bool {
    forall|k: int| 0 <= k < plan.len() ==> (#[trigger] plan[k]).track < tracks && plan[k].from < clips
}

/// Whether every planned clip is one of the copy, for a lane that is there.
pub open spec fn parts_are_there(plan: Seq<PastedPart>, song: SongModel, parts: nat) -> bool {
    forall|k: int| 0 <= k < plan.len() ==> has_lane(song, #[trigger] plan[k]) && plan[k].from < parts
}

/// What is made anew is in the copy.
pub open spec fn all_copied(created: Seq<(u32, u32)>, copies: Seq<u32>) -> bool {
    forall|k: int| 0 <= k < created.len() ==> copies.contains((#[trigger] created[k]).0)
}

proof fn lemma_plan_clips(
    clips: Seq<(u32, Clip)>,
    tracks: Seq<TrackModel>,
    copies: Seq<u32>,
    same_project: bool,
    start: Resolved,
    n: nat,
)
    requires
        n <= clips.len() <= usize::MAX,
        tracks.len() <= usize::MAX,
        all_copied(start.created, copies),
    ensures
        ({
            let (st, plan) = time_paste::plan_clips(clips, tracks, copies, same_project, start, n);
            &&& all_copied(st.created, copies)
            &&& clips_are_there(plan, tracks.len(), clips.len())
        }),
    decreases n,
{
    if n > 0 {
        lemma_plan_clips(clips, tracks, copies, same_project, start, (n - 1) as nat);
        lookup::lemma_track_place(tracks, clips[n - 1].0);
    }
}

/// Whether a song has a lane.
pub open spec fn has_lane(song: SongModel, p: PastedPart) -> bool {
    match p.track {
        None => p.lane < song.song_lanes.len(),
        Some(t) => t < song.tracks.len() && p.lane < song.tracks[t as int].automation_lanes.len(),
    }
}

proof fn lemma_plan_parts(
    parts: Seq<(u32, u32, AutomationClip)>,
    song: SongModel,
    copies: Seq<u32>,
    same_project: bool,
    start: Resolved,
    n: nat,
)
    requires
        n <= parts.len() <= usize::MAX,
        song.song_lanes.len() <= usize::MAX,
        song.tracks.len() <= usize::MAX,
        forall|t: int| 0 <= t < song.tracks.len() ==> (#[trigger] song.tracks[t]).automation_lanes.len() <= usize::MAX,
        all_copied(start.created, copies),
    ensures
        ({
            let (st, plan) = time_paste::plan_parts(parts, song, copies, same_project, start, n);
            &&& all_copied(st.created, copies)
            &&& parts_are_there(plan, song, parts.len())
        }),
    decreases n,
{
    if n > 0 {
        lemma_plan_parts(parts, song, copies, same_project, start, (n - 1) as nat);
        let (track_id, lane_id, clip) = parts[n - 1];
        lookup::lemma_track_place(song.tracks, track_id);
        if track_id == MASTER_TRACK_ID {
            lemma_place(track_ids::lane_ids(song.song_lanes), lane_id, 0);
        } else if let Some(t) = lookup::track_place(song.tracks, track_id) {
            lemma_place(track_ids::lane_ids(song.tracks[t].automation_lanes), lane_id, 0);
        }
    }
}

pub(crate) proof fn lemma_decided(song: SongModel, copy: TimeRangeModel, same_project: bool, next_content_id: u32)
    requires
        can_be_counted(song, copy),
    ensures
        ({
            let (end, clips, parts) = decided(song, copy, same_project, next_content_id);
            &&& all_copied(end.created, time_paste::copied_ids(copy.contents))
            &&& clips_are_there(clips, song.tracks.len(), copy.clips.len())
            &&& parts_are_there(parts, song, copy.automation.len())
        }),
{
    let copies = time_paste::copied_ids(copy.contents);
    let start = time_paste::undecided(song, next_content_id);
    lemma_plan_clips(copy.clips, song.tracks, copies, same_project, start, copy.clips.len());
    let mid = time_paste::plan_clips(copy.clips, song.tracks, copies, same_project, start, copy.clips.len()).0;
    lemma_plan_parts(copy.automation, song, copies, same_project, mid, copy.automation.len());
}

pub(crate) proof fn lemma_place(s: Seq<u32>, id: u32, from: int)
    requires
        0 <= from <= s.len(),
    ensures
        match ids::place_from(s, id, from) {
            Some(k) => from <= k < s.len() && s[k] == id,
            None => forall|k: int| from <= k < s.len() ==> s[k] != id,
        },
    decreases s.len() - from,
{
    if from < s.len() {
        lemma_place(s, id, from + 1);
    }
}

// ---------------------------------------------------------------------------
// Pasting
// ---------------------------------------------------------------------------

fn find_copied(contents: &Vec<CopiedContent>, id: u32) -> (r: Option<usize>)
    ensures
        match r {
            Some(i) => i < contents@.len() && copied_place(model::models(contents@), id) == Some(i as int),
            None => copied_place(model::models(contents@), id) is None,
        },
{
    let ghost all = time_paste::copied_ids(model::models(contents@));
    let mut i: usize = 0;
    while i < contents.len()
        invariant
            all == time_paste::copied_ids(model::models(contents@)),
            i <= contents@.len(),
            ids::place_from(all, id, 0) == ids::place_from(all, id, i as int),
        decreases contents@.len() - i,
    {
        assert(all[i as int] == contents@[i as int]@.id);
        if contents[i].id == id {
            return Some(i);
        }
        i += 1;
    }
    None
}

/// Puts one more clip on a lane.
fn push_part(lane: &mut AutomationLane, clip: AutomationClip, at: Placed, content_id: u32)
    ensures
        final(lane)@ == with_part(old(lane)@, clip, at, content_id),
{
    let ghost before = lane@;
    let (id, next) = hand_out(lane.next_clip_id);
    lane.clips.push(
        AutomationClip {
            id,
            start_beat: at.start_beat,
            length_beats: clip.length_beats,
            end_beat: at.end_beat,
            content_id,
            content_offset_beats: clip.content_offset_beats,
        },
    );
    lane.next_clip_id = next;
    assert(lane@ =~= with_part(before, clip, at, content_id));
}

fn push_on(lanes: &mut Vec<AutomationLane>, p: PastedPart, clip: AutomationClip, at: Placed)
    requires
        p.lane < old(lanes)@.len(),
    ensures
        model::models(final(lanes)@) == lanes_with_part(model::models(old(lanes)@), p, clip, at),
{
    let ghost before = model::models(lanes@);
    let lane = &mut lanes[p.lane];
    push_part(lane, clip, at, p.content_id);
    assert(model::models(lanes@) =~= lanes_with_part(before, p, clip, at));
}

/// Songs keep the tracks and lanes they have when a clip is put on one.
pub(crate) proof fn lemma_parts_keep_lanes(
    song: SongModel,
    plan: Seq<PastedPart>,
    parts: Seq<(u32, u32, AutomationClip)>,
    at: Seq<Placed>,
    n: nat,
    p: PastedPart,
)
    requires
        n <= plan.len(),
        parts_are_there(plan, song, parts.len()),
    ensures
        has_lane(with_parts(song, plan, parts, at, n), p) == has_lane(song, p),
    decreases n,
{
    if n > 0 {
        lemma_parts_keep_lanes(song, plan, parts, at, (n - 1) as nat, p);
        lemma_parts_keep_lanes(song, plan, parts, at, (n - 1) as nat, plan[n - 1]);
    }
}

pub(crate) proof fn lemma_clips_keep_lanes(
    tracks: Seq<TrackModel>,
    plan: Seq<PastedClip>,
    clips: Seq<(u32, Clip)>,
    at: Seq<Placed>,
    n: nat,
)
    requires
        n <= plan.len(),
        clips_are_there(plan, tracks.len(), clips.len()),
    ensures
        with_clips(tracks, plan, clips, at, n).len() == tracks.len(),
        forall|t: int|
            0 <= t < tracks.len() ==> (#[trigger] with_clips(tracks, plan, clips, at, n)[t]).automation_lanes
                == tracks[t].automation_lanes,
    decreases n,
{
    if n > 0 {
        lemma_clips_keep_lanes(tracks, plan, clips, at, (n - 1) as nat);
        let front = with_clips(tracks, plan, clips, at, (n - 1) as nat);
        let now = with_clips(tracks, plan, clips, at, n);
        assert forall|t: int| 0 <= t < tracks.len() implies (#[trigger] now[t]).automation_lanes
            == tracks[t].automation_lanes by {
            assert(front[t].automation_lanes == tracks[t].automation_lanes);
            assert(front[plan[n - 1].track as int].automation_lanes == tracks[plan[n - 1].track as int].automation_lanes);
        }
    }
}

impl Song {
    fn place_clips(&mut self, plan: &Vec<PastedClip>, clips: &Vec<(u32, Clip)>, at: &Vec<Placed>)
        requires
            clips@.len() == at@.len(),
            clips_are_there(plan@, old(self).tracks@.len(), clips@.len()),
        ensures
            final(self)@ == (SongModel {
                tracks: with_clips(old(self)@.tracks, plan@, clips@, at@, plan@.len()),
                ..old(self)@
            }),
    {
        let ghost before = self@;
        let mut k: usize = 0;
        while k < plan.len()
            invariant
                clips@.len() == at@.len(),
                clips_are_there(plan@, before.tracks.len(), clips@.len()),
                k <= plan@.len(),
                self.tracks@.len() == before.tracks.len(),
                self@ == (SongModel { tracks: with_clips(before.tracks, plan@, clips@, at@, k as nat), ..before }),
            decreases plan@.len() - k,
        {
            let p = plan[k];
            let clip = clips[p.from].1;
            let place = at[p.from];
            let ghost now = self@;
            let track = &mut self.tracks[p.track];
            let ghost was = track@;
            let (id, next) = hand_out(track.next_clip_id);
            track.clips.push(
                Clip {
                    id,
                    start_beat: place.start_beat,
                    length_beats: clip.length_beats,
                    end_beat: place.end_beat,
                    content_id: p.content_id,
                    content_offset_beats: clip.content_offset_beats,
                    xfade_lead_beats: clip.xfade_lead_beats,
                    xfade_tail_beats: clip.xfade_tail_beats,
                    muted: clip.muted,
                },
            );
            track.next_clip_id = next;
            proof {
                assert(self.tracks@[p.track as int]@ =~= with_clip(was, clip, place, p.content_id));
                assert(self@.tracks =~= now.tracks.update(
                    p.track as int,
                    with_clip(was, clip, place, p.content_id),
                ));
                assert(self@ =~= (SongModel {
                    tracks: with_clips(before.tracks, plan@, clips@, at@, (k + 1) as nat),
                    ..before
                }));
            }
            k += 1;
        }
    }

    fn place_parts(&mut self, plan: &Vec<PastedPart>, parts: &Vec<(u32, u32, AutomationClip)>, at: &Vec<Placed>)
        requires
            parts@.len() == at@.len(),
            parts_are_there(plan@, old(self)@, parts@.len()),
        ensures
            final(self)@ == with_parts(old(self)@, plan@, parts@, at@, plan@.len()),
    {
        let ghost before = self@;
        let mut k: usize = 0;
        while k < plan.len()
            invariant
                parts@.len() == at@.len(),
                parts_are_there(plan@, before, parts@.len()),
                k <= plan@.len(),
                self@ == with_parts(before, plan@, parts@, at@, k as nat),
            decreases plan@.len() - k,
        {
            let p = plan[k];
            let clip = parts[p.from].2;
            let place = at[p.from];
            let ghost now = self@;
            proof {
                lemma_parts_keep_lanes(before, plan@, parts@, at@, k as nat, p);
                assert(has_lane(now, p));
            }
            match p.track {
                None => {
                    push_on(&mut self.song_lanes, p, clip, place);
                },
                Some(t) => {
                    assert(now.tracks[t as int] == self.tracks@[t as int]@);
                    let track = &mut self.tracks[t];
                    let ghost was = track@;
                    push_on(&mut track.automation_lanes, p, clip, place);
                    assert(self.tracks@[t as int]@ =~= (TrackModel {
                        automation_lanes: lanes_with_part(was.automation_lanes, p, clip, place),
                        ..was
                    }));
                    assert(self@.tracks =~= song_with_part(now, p, clip, place).tracks);
                },
            }
            assert(self@ =~= song_with_part(now, p, clip, place));
            k += 1;
        }
    }

    fn make_contents(&mut self, created: &Vec<(u32, u32)>, contents: &Vec<CopiedContent>)
        requires
            all_copied(created@, time_paste::copied_ids(model::models(contents@))),
        ensures
            final(self)@ == (SongModel {
                clip_contents: old(self)@.clip_contents + made_anew(created@, model::models(contents@)),
                ..old(self)@
            }),
    {
        let ghost before = self@;
        let ghost cm = model::models(contents@);
        let ghost anew = made_anew(created@, cm);
        let mut k: usize = 0;
        assert(before.clip_contents + anew.take(0) =~= before.clip_contents);
        while k < created.len()
            invariant
                cm == model::models(contents@),
                anew == made_anew(created@, cm),
                all_copied(created@, time_paste::copied_ids(cm)),
                k <= created@.len(),
                self@ == (SongModel { clip_contents: before.clip_contents + anew.take(k as int), ..before }),
            decreases created@.len() - k,
        {
            let (from, to) = created[k];
            let ghost now = self@;
            let found = find_copied(contents, from);
            proof {
                lemma_place(time_paste::copied_ids(cm), from, 0);
                assert(time_paste::copied_ids(cm).contains(created@[k as int].0));
            }
            if let Some(i) = found {
                let content = contents[i].content.clone();
                self.clip_contents.push((to, content));
                proof {
                    assert(cm[i as int] == contents@[i as int]@);
                    assert(anew[k as int] == (to, content@));
                    assert(song::content_models(self.clip_contents@) =~= now.clip_contents.push((to, content@)));
                    assert(anew.take(k + 1) =~= anew.take(k as int).push(anew[k as int]));
                    assert(before.clip_contents + anew.take(k + 1) =~= (before.clip_contents + anew.take(
                        k as int,
                    )).push(anew[k as int]));
                    assert(self@ =~= (SongModel { clip_contents: before.clip_contents + anew.take(k + 1), ..before }));
                }
            }
            k += 1;
        }
        assert(anew.take(k as int) =~= anew);
    }

    /// Pastes a copy at a place. First as much time as the copy has is put in there:
    /// clips that go over the place are split, and what lies behind is moved. None, and
    /// nothing is done, if there is no such place, or if the copy has no length. In
    /// the project that the copy is from, contents that are still there are shared;
    /// others are made anew. What has no track or no lane to go to is dropped.
    /// `placed` is where things come to lie: those that are there as much later as the
    /// copy is long, and those of the copy where they are in it, counted from `at`. The
    /// sources that contents refer to are taken in before by the caller, where the copy
    /// is from another project.
    pub fn paste_time_range(
        &mut self,
        at: Beat,
        copy: &TimeRangeCopy,
        same_project: bool,
        next_content_id: u32,
        next_section_id: u32,
        placed: &PlacedTime,
    ) -> (r: Option<Pasted>)
        requires
            placed.clips@.len() == copy.clips@.len(),
            placed.automation@.len() == copy.automation@.len(),
            can_be_opened(at, copy@.span_beats) ==> placed.sums.fits(old(self)@) && placed.moved.fits(
                time_shift::split_song(old(self)@, at, placed.sums),
            ),
        ensures
            r is Some == (at.is_finite() && (Beat { bits: 0 }).le(at) && copy@.span_beats.is_finite() && (Beat {
                bits: 0,
            }).lt(copy@.span_beats)),
            r is None ==> final(self)@ == old(self)@,
            r matches Some(p) ==> ({
                let song = opened(old(self)@, at, placed.sums, placed.moved);
                let end = decided(song, copy@, same_project, next_content_id).0;
                &&& p.ripple == (Ripple { from_beat: at, delta_beats: copy@.span_beats })
                &&& p.created@ == end.created
                &&& p.next_content_id == end.next
                &&& (p.section_ids@, p.next_section_id) == time_paste::section_ids(next_section_id, copy@.sections.len())
                &&& final(self)@ == pasted(
                    song,
                    copy@,
                    same_project,
                    next_content_id,
                    placed.clips@,
                    placed.automation@,
                )
            }),
    {
        let ripple = match self.insert_time(at, copy.span_beats, &placed.sums, &placed.moved) {
            Some(ripple) => ripple,
            None => {
                return None;
            },
        };
        let ghost before = self@;
        let plan = self.paste_plan(copy, same_project, next_content_id);
        proof {
            assert(self.tracks.len() == self.tracks@.len());
            assert(self.song_lanes.len() == self.song_lanes@.len());
            assert(copy.clips.len() == copy.clips@.len());
            assert(copy.automation.len() == copy.automation@.len());
            assert forall|t: int| 0 <= t < before.tracks.len() implies (#[trigger] before.tracks[t]).automation_lanes.len()
                <= usize::MAX by {
                assert(before.tracks[t] == self.tracks@[t]@);
                assert(self.tracks@[t].automation_lanes.len() == self.tracks@[t].automation_lanes@.len());
            }
            lemma_decided(before, copy@, same_project, next_content_id);
            lemma_clips_keep_lanes(before.tracks, plan.clips@, copy@.clips, placed.clips@, plan.clips@.len());
        }
        self.place_clips(&plan.clips, &copy.clips, &placed.clips);
        self.make_contents(&plan.created, &copy.contents);
        assert forall|k: int| 0 <= k < plan.automation@.len() implies has_lane(self@, #[trigger] plan.automation@[k]) by {
            assert(has_lane(before, plan.automation@[k]));
        }
        self.place_parts(&plan.automation, &copy.automation, &placed.automation);
        let (section_ids, next) = hand_out_sections(next_section_id, copy.sections.len());
        Some(
            Pasted {
                ripple,
                created: plan.created,
                next_content_id: plan.next_content_id,
                section_ids,
                next_section_id: next,
            },
        )
    }
}

// ---------------------------------------------------------------------------
// What pasting leaves alone
// ---------------------------------------------------------------------------

pub(crate) proof fn lemma_clips_stay(
    tracks: Seq<TrackModel>,
    plan: Seq<PastedClip>,
    clips: Seq<(u32, Clip)>,
    at: Seq<Placed>,
    n: nat,
    t: int,
)
    requires
        0 <= t < tracks.len(),
        n <= plan.len(),
        clips_are_there(plan, tracks.len(), clips.len()),
    ensures
        with_clips(tracks, plan, clips, at, n).len() == tracks.len(),
        tracks[t].clips.len() <= with_clips(tracks, plan, clips, at, n)[t].clips.len(),
        with_clips(tracks, plan, clips, at, n)[t].clips.take(tracks[t].clips.len() as int) == tracks[t].clips,
    decreases n,
{
    let m = tracks[t].clips.len() as int;
    let now = with_clips(tracks, plan, clips, at, n)[t].clips;
    if n > 0 {
        lemma_clips_stay(tracks, plan, clips, at, (n - 1) as nat, t);
        let front = with_clips(tracks, plan, clips, at, (n - 1) as nat)[t].clips;
        assert(now.take(m) =~= front.take(m));
    } else {
        assert(now.take(m) =~= tracks[t].clips);
    }
}

pub(crate) proof fn lemma_parts_leave_clips(
    song: SongModel,
    plan: Seq<PastedPart>,
    parts: Seq<(u32, u32, AutomationClip)>,
    at: Seq<Placed>,
    n: nat,
    t: int,
)
    requires
        0 <= t < song.tracks.len(),
        n <= plan.len(),
        parts_are_there(plan, song, parts.len()),
    ensures
        with_parts(song, plan, parts, at, n).tracks.len() == song.tracks.len(),
        with_parts(song, plan, parts, at, n).tracks[t].clips == song.tracks[t].clips,
        with_parts(song, plan, parts, at, n).clip_contents == song.clip_contents,
    decreases n,
{
    if n > 0 {
        lemma_parts_leave_clips(song, plan, parts, at, (n - 1) as nat, t);
        lemma_parts_keep_lanes(song, plan, parts, at, (n - 1) as nat, plan[n - 1]);
    }
}

/// Pasting adds: the clips of every track that were there are still there, and
/// so are the contents.
pub proof fn law_pasting_takes_nothing_away(
    song: SongModel,
    copy: TimeRangeModel,
    same_project: bool,
    next_content_id: u32,
    clips_at: Seq<Placed>,
    automation_at: Seq<Placed>,
    t: int,
)
    requires
        can_be_counted(song, copy),
        0 <= t < song.tracks.len(),
    ensures
        ({
            let now = pasted(song, copy, same_project, next_content_id, clips_at, automation_at);
            &&& now.tracks.len() == song.tracks.len()
            &&& song.tracks[t].clips.is_prefix_of(now.tracks[t].clips)
            &&& song.clip_contents.is_prefix_of(now.clip_contents)
        }),
{
    let (end, clips, parts) = decided(song, copy, same_project, next_content_id);
    let placed = SongModel {
        tracks: with_clips(song.tracks, clips, copy.clips, clips_at, clips.len()),
        clip_contents: song.clip_contents + made_anew(end.created, copy.contents),
        ..song
    };
    lemma_decided(song, copy, same_project, next_content_id);
    lemma_clips_stay(song.tracks, clips, copy.clips, clips_at, clips.len(), t);
    lemma_clips_keep_lanes(song.tracks, clips, copy.clips, clips_at, clips.len());
    assert(parts_are_there(parts, placed, copy.automation.len())) by {
        assert forall|k: int| 0 <= k < parts.len() implies has_lane(placed, #[trigger] parts[k]) by {
            assert(has_lane(song, parts[k]));
        }
    }
    lemma_parts_leave_clips(placed, parts, copy.automation, automation_at, parts.len(), t);
    assert(song.tracks[t].clips =~= placed.tracks[t].clips.subrange(0, song.tracks[t].clips.len() as int));
    assert(song.clip_contents =~= placed.clip_contents.subrange(0, song.clip_contents.len() as int));
}

/// A clip of a copy as it was placed, under an id of its own and with a content.
pub open spec fn is_placed(c: Clip, copied: Clip, at: Placed) -> bool {
    c == Clip {
        id: c.id,
        start_beat: at.start_beat,
        end_beat: at.end_beat,
        content_id: c.content_id,
        ..copied
    }
}

/// As [`is_placed`], of a lane.
pub open spec fn is_placed_part(c: AutomationClip, copied: AutomationClip, at: Placed) -> bool {
    c == AutomationClip {
        id: c.id,
        start_beat: at.start_beat,
        end_beat: at.end_beat,
        content_id: c.content_id,
        ..copied
    }
}

/// Whether every planned clip goes to the track that it was copied from.
spec fn go_home(plan: Seq<PastedClip>, tracks: Seq<TrackModel>, clips: Seq<(u32, Clip)>) -> bool {
    forall|k: int|
        0 <= k < plan.len() ==> tracks[(#[trigger] plan[k]).track as int].id == clips[plan[k].from as int].0
}

proof fn lemma_go_home(
    clips: Seq<(u32, Clip)>,
    tracks: Seq<TrackModel>,
    copies: Seq<u32>,
    same_project: bool,
    start: Resolved,
    n: nat,
)
    requires
        n <= clips.len() <= usize::MAX,
        tracks.len() <= usize::MAX,
    ensures
        go_home(time_paste::plan_clips(clips, tracks, copies, same_project, start, n).1, tracks, clips),
    decreases n,
{
    if n > 0 {
        lemma_go_home(clips, tracks, copies, same_project, start, (n - 1) as nat);
        lookup::lemma_track_place(tracks, clips[n - 1].0);
    }
}

/// Whether a clip is one of a copy, as it was placed on its track.
pub open spec fn comes_from(c: Clip, track_id: u32, clips: Seq<(u32, Clip)>, at: Seq<Placed>) -> bool {
    exists|j: int| 0 <= j < clips.len() && (#[trigger] clips[j]).0 == track_id && is_placed(c, clips[j].1, at[j])
}

/// What is behind the clips of a track that were there are clips of the copy.
proof fn lemma_clips_come(
    tracks: Seq<TrackModel>,
    plan: Seq<PastedClip>,
    clips: Seq<(u32, Clip)>,
    at: Seq<Placed>,
    n: nat,
    t: int,
    k: int,
)
    requires
        0 <= t < tracks.len(),
        n <= plan.len(),
        clips_are_there(plan, tracks.len(), clips.len()),
        go_home(plan, tracks, clips),
        tracks[t].clips.len() <= k < with_clips(tracks, plan, clips, at, n)[t].clips.len(),
    ensures
        comes_from(with_clips(tracks, plan, clips, at, n)[t].clips[k], tracks[t].id, clips, at),
    decreases n,
{
    if n > 0 {
        let front = with_clips(tracks, plan, clips, at, (n - 1) as nat);
        lemma_clips_stay(tracks, plan, clips, at, (n - 1) as nat, t);
        if k < front[t].clips.len() {
            lemma_clips_come(tracks, plan, clips, at, (n - 1) as nat, t, k);
        } else {
            let p = plan[n - 1];
            assert(p.track == t);
            let j = p.from as int;
            assert(clips[j].0 == tracks[t].id);
            assert(is_placed(with_clips(tracks, plan, clips, at, n)[t].clips[k], clips[j].1, at[j]));
        }
    }
}

/// The lane of a song at a place: of the track at place `t`, or of the song itself.
pub open spec fn lane_of(song: SongModel, t: Option<int>, l: int) -> LaneModel {
    match t {
        Some(t) => song.tracks[t].automation_lanes[l],
        None => song.song_lanes[l],
    }
}

/// Whether there is a lane at a place.
pub open spec fn is_lane(song: SongModel, t: Option<int>, l: int) -> bool {
    match t {
        Some(t) => 0 <= t < song.tracks.len() && 0 <= l < song.tracks[t].automation_lanes.len(),
        None => 0 <= l < song.song_lanes.len(),
    }
}

/// The clips of lanes that were there stay in front, and behind them are clips of the
/// copy.
pub(crate) proof fn lemma_parts_stay(
    song: SongModel,
    plan: Seq<PastedPart>,
    parts: Seq<(u32, u32, AutomationClip)>,
    at: Seq<Placed>,
    n: nat,
    t: Option<int>,
    l: int,
)
    requires
        n <= plan.len(),
        parts_are_there(plan, song, parts.len()),
        is_lane(song, t, l),
    ensures
        ({
            let was = lane_of(song, t, l).clips;
            let now = lane_of(with_parts(song, plan, parts, at, n), t, l).clips;
            &&& is_lane(with_parts(song, plan, parts, at, n), t, l)
            &&& was.len() <= now.len()
            &&& forall|k: int| 0 <= k < was.len() ==> #[trigger] now[k] == was[k]
            &&& forall|k: int|
                was.len() <= k < now.len() ==> exists|j: int|
                    0 <= j < parts.len() && is_placed_part(#[trigger] now[k], (#[trigger] parts[j]).2, at[j])
        }),
    decreases n,
{
    if n > 0 {
        lemma_parts_stay(song, plan, parts, at, (n - 1) as nat, t, l);
        let p = plan[n - 1];
        lemma_parts_keep_lanes(song, plan, parts, at, (n - 1) as nat, p);
        let front = with_parts(song, plan, parts, at, (n - 1) as nat);
        let now = with_parts(song, plan, parts, at, n);
        let was = lane_of(song, t, l).clips;
        let a = lane_of(front, t, l).clips;
        let b = lane_of(now, t, l).clips;
        assert(has_lane(front, p));
        assert(p.from < parts.len());
        assert forall|k: int| was.len() <= k < b.len() implies exists|j: int|
            0 <= j < parts.len() && is_placed_part(#[trigger] b[k], (#[trigger] parts[j]).2, at[j]) by {
            if k < a.len() {
                assert(b[k] == a[k]);
            } else {
                assert(is_placed_part(b[k], parts[p.from as int].2, at[p.from as int]));
            }
        }
    }
}

/// Pasting opens time for what it pastes. Of the clips of a track, split at the place
/// so that none goes over it, those at the place or behind it are where the opened time
/// moved them, those before are where they were, and all that comes after them are
/// clips of the copy from that track, where they were placed.
pub proof fn law_pasting_opens_the_time(
    song: SongModel,
    at: Beat,
    sums: SongSums<SplitSums>,
    moved: SongSums<(Beat, Beat)>,
    copy: TimeRangeModel,
    same_project: bool,
    next_content_id: u32,
    clips_at: Seq<Placed>,
    automation_at: Seq<Placed>,
    t: int,
)
    requires
        can_be_counted(song, copy),
        0 <= t < song.tracks.len(),
    ensures
        ({
            let split = time_shift::split_song(song, at, sums).tracks[t].clips;
            let now = pasted(
                opened(song, at, sums, moved),
                copy,
                same_project,
                next_content_id,
                clips_at,
                automation_at,
            );
            let clips = now.tracks[t].clips;
            &&& now.tracks.len() == song.tracks.len()
            &&& split.len() <= clips.len()
            &&& forall|k: int|
                0 <= k < split.len() ==> !time_shift::goes_over((#[trigger] split[k]).start_beat, split[k].end_beat, at)
            &&& forall|k: int|
                0 <= k < split.len() ==> #[trigger] clips[k] == time_shift::moved_clip(split[k], at, moved.clips@[t]@[k])
            &&& forall|k: int|
                split.len() <= k < clips.len() ==> comes_from(#[trigger] clips[k], song.tracks[t].id, copy.clips, clips_at)
        }),
{
    let split_song = time_shift::split_song(song, at, sums);
    let split = split_song.tracks[t].clips;
    let open = opened(song, at, sums, moved);
    assert(open.tracks[t].clips == time_shift::moved_clips(split, at, moved.clips@[t]@));
    assert(open.tracks[t].id == song.tracks[t].id);
    lemma_opened_counted(song, at, sums, moved, copy);
    let copies = time_paste::copied_ids(copy.contents);
    let start = time_paste::undecided(open, next_content_id);
    let (end, plan, parts) = decided(open, copy, same_project, next_content_id);
    let placed = SongModel {
        tracks: with_clips(open.tracks, plan, copy.clips, clips_at, plan.len()),
        clip_contents: open.clip_contents + made_anew(end.created, copy.contents),
        ..open
    };
    lemma_decided(open, copy, same_project, next_content_id);
    lemma_go_home(copy.clips, open.tracks, copies, same_project, start, copy.clips.len());
    lemma_clips_stay(open.tracks, plan, copy.clips, clips_at, plan.len(), t);
    lemma_clips_keep_lanes(open.tracks, plan, copy.clips, clips_at, plan.len());
    assert(parts_are_there(parts, placed, copy.automation.len())) by {
        assert forall|k: int| 0 <= k < parts.len() implies has_lane(placed, #[trigger] parts[k]) by {
            assert(has_lane(open, parts[k]));
        }
    }
    lemma_parts_leave_clips(placed, parts, copy.automation, automation_at, parts.len(), t);
    let now = pasted(open, copy, same_project, next_content_id, clips_at, automation_at);
    let clips = now.tracks[t].clips;
    assert(now == with_parts(placed, parts, copy.automation, automation_at, parts.len()));
    assert(clips == with_clips(open.tracks, plan, copy.clips, clips_at, plan.len())[t].clips);
    assert forall|k: int| 0 <= k < split.len() implies !time_shift::goes_over(
        (#[trigger] split[k]).start_beat,
        split[k].end_beat,
        at,
    ) by {
        let tr = song.tracks[t];
        time_shift::law_nothing_goes_over_a_split(tr.clips, tr.next_clip_id, at, sums.clips@[t]@, k);
    }
    assert forall|k: int| 0 <= k < split.len() implies #[trigger] clips[k] == time_shift::moved_clip(
        split[k],
        at,
        moved.clips@[t]@[k],
    ) by {
        assert(clips.take(split.len() as int)[k] == clips[k]);
        assert(open.tracks[t].clips[k] == time_shift::moved_clip(split[k], at, moved.clips@[t]@[k]));
    }
    assert forall|k: int| split.len() <= k < clips.len() implies comes_from(
        #[trigger] clips[k],
        song.tracks[t].id,
        copy.clips,
        clips_at,
    ) by {
        lemma_clips_come(open.tracks, plan, copy.clips, clips_at, plan.len(), t, k);
    }
}

/// The same of lanes: of the track at place `t`, or of the song itself.
pub proof fn law_pasting_opens_the_time_of_lanes(
    song: SongModel,
    at: Beat,
    sums: SongSums<SplitSums>,
    moved: SongSums<(Beat, Beat)>,
    copy: TimeRangeModel,
    same_project: bool,
    next_content_id: u32,
    clips_at: Seq<Placed>,
    automation_at: Seq<Placed>,
    t: Option<int>,
    l: int,
)
    requires
        can_be_counted(song, copy),
        is_lane(song, t, l),
    ensures
        ({
            let split = lane_of(time_shift::split_song(song, at, sums), t, l).clips;
            let to = match t {
                Some(t) => moved.lanes@[t]@[l]@,
                None => moved.song_lanes@[l]@,
            };
            let now = pasted(
                opened(song, at, sums, moved),
                copy,
                same_project,
                next_content_id,
                clips_at,
                automation_at,
            );
            let clips = lane_of(now, t, l).clips;
            &&& is_lane(now, t, l)
            &&& split.len() <= clips.len()
            &&& forall|k: int|
                0 <= k < split.len() ==> !time_shift::goes_over((#[trigger] split[k]).start_beat, split[k].end_beat, at)
            &&& forall|k: int|
                0 <= k < split.len() ==> #[trigger] clips[k] == time_shift::moved_part(split[k], at, to[k])
            &&& forall|k: int|
                split.len() <= k < clips.len() ==> exists|j: int|
                    0 <= j < copy.automation.len() && is_placed_part(
                        #[trigger] clips[k],
                        (#[trigger] copy.automation[j]).2,
                        automation_at[j],
                    )
        }),
{
    let split_song = time_shift::split_song(song, at, sums);
    let split = lane_of(split_song, t, l).clips;
    let open = opened(song, at, sums, moved);
    lemma_opened_counted(song, at, sums, moved, copy);
    let (end, plan, parts) = decided(open, copy, same_project, next_content_id);
    let placed = SongModel {
        tracks: with_clips(open.tracks, plan, copy.clips, clips_at, plan.len()),
        clip_contents: open.clip_contents + made_anew(end.created, copy.contents),
        ..open
    };
    lemma_decided(open, copy, same_project, next_content_id);
    lemma_clips_keep_lanes(open.tracks, plan, copy.clips, clips_at, plan.len());
    assert(parts_are_there(parts, placed, copy.automation.len())) by {
        assert forall|k: int| 0 <= k < parts.len() implies has_lane(placed, #[trigger] parts[k]) by {
            assert(has_lane(open, parts[k]));
        }
    }
    let lane = lane_of(song, t, l);
    let to = match t {
        Some(t) => moved.lanes@[t]@[l]@,
        None => moved.song_lanes@[l]@,
    };
    let lane_sums = match t {
        Some(t) => sums.lanes@[t]@[l]@,
        None => sums.song_lanes@[l]@,
    };
    if let Some(t) = t {
        assert(placed.tracks[t].automation_lanes == open.tracks[t].automation_lanes);
        assert(split_song.tracks[t].automation_lanes[l] == time_shift::split_lane(lane, at, lane_sums));
        assert(open.tracks[t].automation_lanes[l].clips == time_shift::moved_parts(split, at, to));
    } else {
        assert(split_song.song_lanes[l] == time_shift::split_lane(lane, at, lane_sums));
        assert(open.song_lanes[l].clips == time_shift::moved_parts(split, at, to));
    }
    assert(is_lane(placed, t, l));
    lemma_parts_stay(placed, parts, copy.automation, automation_at, parts.len(), t, l);
    let now = pasted(open, copy, same_project, next_content_id, clips_at, automation_at);
    let clips = lane_of(now, t, l).clips;
    assert(now == with_parts(placed, parts, copy.automation, automation_at, parts.len()));
    assert(lane_of(placed, t, l).clips == time_shift::moved_parts(split, at, to));
    assert forall|k: int| 0 <= k < split.len() implies !time_shift::goes_over(
        (#[trigger] split[k]).start_beat,
        split[k].end_beat,
        at,
    ) by {
        time_shift::law_no_part_goes_over_a_split(lane.clips, lane.next_clip_id, at, lane_sums, k);
    }
    assert forall|k: int| 0 <= k < split.len() implies #[trigger] clips[k] == time_shift::moved_part(
        split[k],
        at,
        to[k],
    ) by {
        assert(lane_of(placed, t, l).clips[k] == time_shift::moved_part(split[k], at, to[k]));
    }
}

proof fn lemma_opened_counted(
    song: SongModel,
    at: Beat,
    sums: SongSums<SplitSums>,
    moved: SongSums<(Beat, Beat)>,
    copy: TimeRangeModel,
)
    requires
        can_be_counted(song, copy),
    ensures
        can_be_counted(opened(song, at, sums, moved), copy),
        opened(song, at, sums, moved).tracks.len() == song.tracks.len(),
{
    let open = opened(song, at, sums, moved);
    assert forall|t: int| 0 <= t < open.tracks.len() implies (#[trigger] open.tracks[t]).automation_lanes.len()
        <= usize::MAX by {
        assert(open.tracks[t].automation_lanes.len() == song.tracks[t].automation_lanes.len());
    }
}

// ---------------------------------------------------------------------------
// Contents stay apart
// ---------------------------------------------------------------------------

/// Whether the contents of a song are apart, and the next one will be.
pub open spec fn stays_apart(st: Resolved) -> bool {
    &&& st.existing.no_duplicates()
    &&& forall|i: int| 0 <= i < st.existing.len() ==> #[trigger] st.existing[i] < st.next
}

/// The ids under which contents were made anew.
pub open spec fn new_ids(created: Seq<(u32, u32)>) -> Seq<u32> {
    created.map_values(|c: (u32, u32)| c.1)
}

proof fn lemma_resolve_apart(st: Resolved, base: Seq<u32>, id: u32, copies: Seq<u32>, same_project: bool)
    requires
        st.existing == base + new_ids(st.created),
    ensures
        ({
            let next = time_paste::resolve(st, id, copies, same_project).0;
            &&& next.existing == base + new_ids(next.created)
            &&& st.next <= next.next
            &&& stays_apart(st) && next.next < u32::MAX ==> stays_apart(next)
        }),
{
    let next = time_paste::resolve(st, id, copies, same_project).0;
    if next.created != st.created {
        let made = next.created.last();
        assert(new_ids(next.created) =~= new_ids(st.created).push(made.1));
        assert(next.existing =~= base + new_ids(next.created));
    }
}

proof fn lemma_clips_apart(
    clips: Seq<(u32, Clip)>,
    tracks: Seq<TrackModel>,
    copies: Seq<u32>,
    same_project: bool,
    start: Resolved,
    base: Seq<u32>,
    n: nat,
)
    requires
        n <= clips.len(),
        start.existing == base + new_ids(start.created),
    ensures
        ({
            let st = time_paste::plan_clips(clips, tracks, copies, same_project, start, n).0;
            &&& st.existing == base + new_ids(st.created)
            &&& start.next <= st.next
            &&& stays_apart(start) && st.next < u32::MAX ==> stays_apart(st)
        }),
    decreases n,
{
    if n > 0 {
        lemma_clips_apart(clips, tracks, copies, same_project, start, base, (n - 1) as nat);
        let st = time_paste::plan_clips(clips, tracks, copies, same_project, start, (n - 1) as nat).0;
        lemma_resolve_apart(st, base, clips[n - 1].1.content_id, copies, same_project);
    }
}

proof fn lemma_parts_apart(
    parts: Seq<(u32, u32, AutomationClip)>,
    song: SongModel,
    copies: Seq<u32>,
    same_project: bool,
    start: Resolved,
    base: Seq<u32>,
    n: nat,
)
    requires
        n <= parts.len(),
        start.existing == base + new_ids(start.created),
    ensures
        ({
            let st = time_paste::plan_parts(parts, song, copies, same_project, start, n).0;
            &&& st.existing == base + new_ids(st.created)
            &&& start.next <= st.next
            &&& stays_apart(start) && st.next < u32::MAX ==> stays_apart(st)
        }),
    decreases n,
{
    if n > 0 {
        lemma_parts_apart(parts, song, copies, same_project, start, base, (n - 1) as nat);
        let st = time_paste::plan_parts(parts, song, copies, same_project, start, (n - 1) as nat).0;
        lemma_resolve_apart(st, base, parts[n - 1].2.content_id, copies, same_project);
    }
}

/// Pasting keeps every content under an id of its own, as long as there are ids
/// left.
pub proof fn law_pasting_keeps_contents_once(
    song: SongModel,
    copy: TimeRangeModel,
    same_project: bool,
    next_content_id: u32,
    clips_at: Seq<Placed>,
    automation_at: Seq<Placed>,
)
    requires
        can_be_counted(song, copy),
        song.contents_once(),
        forall|i: int| 0 <= i < song.clip_contents.len() ==> (#[trigger] song.clip_contents[i]).0 < next_content_id,
        decided(song, copy, same_project, next_content_id).0.next < u32::MAX,
    ensures
        pasted(song, copy, same_project, next_content_id, clips_at, automation_at).contents_once(),
{
    let copies = time_paste::copied_ids(copy.contents);
    let start = time_paste::undecided(song, next_content_id);
    let base = time_paste::content_ids(song);
    assert(base + new_ids(start.created) =~= base);
    assert(stays_apart(start)) by {
        assert forall|i: int| 0 <= i < base.len() implies #[trigger] base[i] < next_content_id by {
            assert(base[i] == song.clip_contents[i].0);
        }
        assert forall|i: int, j: int| 0 <= i < base.len() && 0 <= j < base.len() && i != j implies base[i]
            != base[j] by {
            assert(base[i] == song.clip_contents[i].0 && base[j] == song.clip_contents[j].0);
        }
    }
    lemma_clips_apart(copy.clips, song.tracks, copies, same_project, start, base, copy.clips.len());
    let mid = time_paste::plan_clips(copy.clips, song.tracks, copies, same_project, start, copy.clips.len()).0;
    lemma_parts_apart(copy.automation, song, copies, same_project, mid, base, copy.automation.len());
    let (end, clips, parts) = decided(song, copy, same_project, next_content_id);
    let placed = SongModel {
        tracks: with_clips(song.tracks, clips, copy.clips, clips_at, clips.len()),
        clip_contents: song.clip_contents + made_anew(end.created, copy.contents),
        ..song
    };
    lemma_decided(song, copy, same_project, next_content_id);
    lemma_clips_keep_lanes(song.tracks, clips, copy.clips, clips_at, clips.len());
    assert(parts_are_there(parts, placed, copy.automation.len())) by {
        assert forall|k: int| 0 <= k < parts.len() implies has_lane(placed, #[trigger] parts[k]) by {
            assert(has_lane(song, parts[k]));
        }
    }
    lemma_parts_keep_contents(placed, parts, copy.automation, automation_at, parts.len());
    assert forall|i: int, j: int| 0 <= i < j < placed.clip_contents.len() implies (#[trigger] placed.clip_contents[i]).0
        != (#[trigger] placed.clip_contents[j]).0 by {
        assert(placed.clip_contents[i].0 == end.existing[i]);
        assert(placed.clip_contents[j].0 == end.existing[j]);
    }
}

pub(crate) proof fn lemma_parts_keep_contents(
    song: SongModel,
    plan: Seq<PastedPart>,
    parts: Seq<(u32, u32, AutomationClip)>,
    at: Seq<Placed>,
    n: nat,
)
    requires
        n <= plan.len(),
    ensures
        with_parts(song, plan, parts, at, n).clip_contents == song.clip_contents,
    decreases n,
{
    if n > 0 {
        lemma_parts_keep_contents(song, plan, parts, at, (n - 1) as nat);
    }
}

} // verus!
