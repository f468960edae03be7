//! What holds when a copy is pasted: everything arrives, and shows what it showed.

use super::automation::{AutomationClip, LaneModel};
use super::clip::{Clip, ContentModel};
use super::ids;
use super::lookup;
use super::song::SongModel;
use super::time_ops::{CopiedModel, TimeRangeModel};
use super::time_paste;
use super::time_paste::{PastedClip, PastedPart, Resolved};
use super::time_place;
use super::time_place::Placed;
use super::track::TrackModel;
use super::track_ids;
use super::MASTER_TRACK_ID;
use vstd::prelude::*;

verus! {

// ---------------------------------------------------------------------------
// Contents
// ---------------------------------------------------------------------------

/// Whether a song has a content.
pub open spec fn has_content(contents: Seq<(u32, ContentModel)>, id: u32) -> bool {
    exists|i: int| 0 <= i < contents.len() && (#[trigger] contents[i]).0 == id
}

/// Whether a copy carries a content.
pub open spec fn carries(contents: Seq<CopiedModel>, id: u32) -> bool {
    exists|i: int| 0 <= i < contents.len() && (#[trigger] contents[i]).id == id
}

/// Whether a clip that showed `from` shows the same when it shows `to`. In the project
/// that the copy is from, what is still there is shown as it is. What is not, or belongs
/// to another project, is taken from the copy. What is nowhere is still referred to, in
/// the project that the copy is from.
pub open spec fn shows_the_same(
    to: u32,
    from: u32,
    was: Seq<(u32, ContentModel)>,
    now: Seq<(u32, ContentModel)>,
    contents: Seq<CopiedModel>,
    same_project: bool,
) -> bool {
    if same_project && has_content(was, from) {
        to == from
    } else if carries(contents, from) {
        exists|i: int, k: int|
            0 <= i < contents.len() && was.len() <= k < now.len() && (#[trigger] contents[i]).id == from
                && #[trigger] now[k] == (to, contents[i].content)
    } else {
        same_project && to == from
    }
}

/// What is decided about a content.
spec fn is_decided_right(
    to: u32,
    from: u32,
    base: Seq<u32>,
    created: Seq<(u32, u32)>,
    copies: Seq<u32>,
    same_project: bool,
) -> bool {
    if same_project && base.contains(from) {
        to == from
    } else if copies.contains(from) {
        created.contains((from, to))
    } else {
        same_project && to == from
    }
}

/// What holds while it is decided about contents.
spec fn decides_right(st: Resolved, base: Seq<u32>, first: u32, copies: Seq<u32>, same_project: bool) -> bool {
    &&& forall|k: int|
        0 <= k < st.remap.len() ==> is_decided_right(
            (#[trigger] st.remap[k]).1,
            st.remap[k].0,
            base,
            st.created,
            copies,
            same_project,
        )
    &&& forall|x: u32| #[trigger] st.existing.contains(x) ==> base.contains(x) || x >= first
    &&& forall|x: u32| #[trigger] base.contains(x) ==> st.existing.contains(x)
    &&& st.next >= first || first <= 1
    &&& first >= 1
    &&& ids::fresh(st.next) >= first
}

proof fn lemma_stand_in(remap: Seq<(u32, u32)>, id: u32, from: int)
    requires
        0 <= from,
    ensures
        match time_paste::stand_in(remap, id, from) {
            Some(to) => exists|k: int| from <= k < remap.len() && #[trigger] remap[k] == (id, to),
            None => true,
        },
    decreases remap.len() - from,
{
    if from < remap.len() {
        if remap[from].0 == id {
            assert(remap[from] == (id, remap[from].1));
        } else {
            lemma_stand_in(remap, id, from + 1);
        }
    }
}

proof fn lemma_resolve(st: Resolved, id: u32, base: Seq<u32>, first: u32, copies: Seq<u32>, same_project: bool)
    requires
        decides_right(st, base, first, copies, same_project),
        same_project ==> id < first,
    ensures
        ({
            let (next, to) = time_paste::resolve(st, id, copies, same_project);
            &&& decides_right(next, base, first, copies, same_project)
            &&& st.created.is_prefix_of(next.created)
            &&& to is Some || (!same_project && !copies.contains(id))
            &&& to is Some ==> is_decided_right(to->0, id, base, next.created, copies, same_project)
        }),
{
    let (next, to) = time_paste::resolve(st, id, copies, same_project);
    lemma_stand_in(st.remap, id, 0);
    assert forall|pair: (u32, u32)| #[trigger] st.created.contains(pair) implies next.created.contains(pair) by {
        let k = choose|k: int| 0 <= k < st.created.len() && st.created[k] == pair;
        assert(next.created[k] == pair);
    }
    if time_paste::stand_in(st.remap, id, 0) is None {
        if !(same_project && st.existing.contains(id)) && copies.contains(id) {
            let fresh = ids::fresh(st.next);
            assert(next.created[st.created.len() as int] == (id, fresh));
            assert(next.created.contains((id, fresh)));
            assert forall|x: u32| #[trigger] next.existing.contains(x) implies base.contains(x) || x >= first by {
                let k = choose|k: int| 0 <= k < next.existing.len() && next.existing[k] == x;
                if k < st.existing.len() {
                    assert(st.existing[k] == x);
                    assert(st.existing.contains(x));
                }
            }
            assert forall|x: u32| #[trigger] base.contains(x) implies next.existing.contains(x) by {
                assert(st.existing.contains(x));
                let k = choose|k: int| 0 <= k < st.existing.len() && st.existing[k] == x;
                assert(next.existing[k] == x);
            }
        }
        assert forall|k: int| 0 <= k < next.remap.len() implies is_decided_right(
            (#[trigger] next.remap[k]).1,
            next.remap[k].0,
            base,
            next.created,
            copies,
            same_project,
        ) by {
            if k < st.remap.len() {
                assert(next.remap[k] == st.remap[k]);
            }
        }
    }
}

// ---------------------------------------------------------------------------
// Clips
// ---------------------------------------------------------------------------

/// Whether a clip of a copy is planned for its track.
spec fn is_planned(p: PastedClip, j: int, t: int, from: u32, base: Seq<u32>, created: Seq<(u32, u32)>, copies: Seq<u32>, same_project: bool) -> bool {
    &&& p.from == j
    &&& p.track == t
    &&& is_decided_right(p.content_id, from, base, created, copies, same_project)
}

proof fn lemma_planned(
    clips: Seq<(u32, Clip)>,
    tracks: Seq<TrackModel>,
    copies: Seq<u32>,
    same_project: bool,
    start: Resolved,
    base: Seq<u32>,
    first: u32,
    n: nat,
    j: int,
)
    requires
        n <= clips.len() <= usize::MAX,
        tracks.len() <= usize::MAX,
        decides_right(start, base, first, copies, same_project),
        same_project ==> forall|i: int| 0 <= i < clips.len() ==> (#[trigger] clips[i]).1.content_id < first,
    ensures
        ({
            let (st, plan) = time_paste::plan_clips(clips, tracks, copies, same_project, start, n);
            &&& decides_right(st, base, first, copies, same_project)
            &&& start.created.is_prefix_of(st.created)
            &&& 0 <= j < n && lookup::track_place(tracks, clips[j].0) is Some && (same_project || copies.contains(
                clips[j].1.content_id,
            )) ==> exists|k: int|
                0 <= k < plan.len() && is_planned(
                    #[trigger] plan[k],
                    j,
                    lookup::track_place(tracks, clips[j].0)->0,
                    clips[j].1.content_id,
                    base,
                    st.created,
                    copies,
                    same_project,
                )
        }),
    decreases n,
{
    if n > 0 {
        let m = n - 1;
        lemma_planned(clips, tracks, copies, same_project, start, base, first, m as nat, j);
        let (st, front) = time_paste::plan_clips(clips, tracks, copies, same_project, start, m as nat);
        let (next, plan) = time_paste::plan_clips(clips, tracks, copies, same_project, start, n);
        lemma_resolve(st, clips[m].1.content_id, base, first, copies, same_project);
        lookup::lemma_track_place(tracks, clips[m].0);
        assert(start.created.is_prefix_of(next.created)) by {
            assert(start.created =~= next.created.subrange(0, start.created.len() as int));
        }
        if 0 <= j < n && lookup::track_place(tracks, clips[j].0) is Some && (same_project || copies.contains(
            clips[j].1.content_id,
        )) {
            let t = lookup::track_place(tracks, clips[j].0)->0;
            if j < m {
                let k = choose|k: int|
                    0 <= k < front.len() && is_planned(
                        #[trigger] front[k],
                        j,
                        t,
                        clips[j].1.content_id,
                        base,
                        st.created,
                        copies,
                        same_project,
                    );
                assert(plan[k] == front[k]);
                lemma_prefix_contains(st.created, next.created, (clips[j].1.content_id, plan[k].content_id));
                assert(is_planned(
                    plan[k],
                    j,
                    t,
                    clips[j].1.content_id,
                    base,
                    next.created,
                    copies,
                    same_project,
                ));
            } else {
                assert(is_planned(
                    plan[front.len() as int],
                    j,
                    t,
                    clips[j].1.content_id,
                    base,
                    next.created,
                    copies,
                    same_project,
                ));
            }
        }
    }
}

proof fn lemma_prefix_contains(a: Seq<(u32, u32)>, b: Seq<(u32, u32)>, pair: (u32, u32))
    requires
        a.is_prefix_of(b),
    ensures
        a.contains(pair) ==> b.contains(pair),
{
    if a.contains(pair) {
        let k = choose|k: int| 0 <= k < a.len() && a[k] == pair;
        assert(b[k] == pair);
    }
}

/// Whether a clip is one of a copy, where it was placed, showing something.
pub open spec fn arrives_as(c: Clip, copied: Clip, at: Placed, content_id: u32) -> bool {
    &&& c.start_beat == at.start_beat
    &&& c.end_beat == at.end_beat
    &&& c.content_id == content_id
    &&& c.length_beats == copied.length_beats
    &&& c.content_offset_beats == copied.content_offset_beats
    &&& c.muted == copied.muted
    &&& c.xfade_lead_beats == copied.xfade_lead_beats
    &&& c.xfade_tail_beats == copied.xfade_tail_beats
    &&& c.id != 0
}

proof fn lemma_clip_arrives(
    tracks: Seq<TrackModel>,
    plan: Seq<PastedClip>,
    clips: Seq<(u32, Clip)>,
    at: Seq<Placed>,
    n: nat,
    k: int,
)
    requires
        0 <= k < n <= plan.len(),
        time_place::clips_are_there(plan, tracks.len(), clips.len()),
    ensures
        ({
            let t = plan[k].track as int;
            let now = time_place::with_clips(tracks, plan, clips, at, n)[t].clips;
            exists|c: int|
                tracks[t].clips.len() <= c < now.len() && arrives_as(
                    #[trigger] now[c],
                    clips[plan[k].from as int].1,
                    at[plan[k].from as int],
                    plan[k].content_id,
                )
        }),
    decreases n,
{
    let t = plan[k].track as int;
    let m = (n - 1) as nat;
    let front = time_place::with_clips(tracks, plan, clips, at, m);
    let now = time_place::with_clips(tracks, plan, clips, at, n);
    time_place::lemma_clips_stay(tracks, plan, clips, at, m, t);
    let p = plan[n - 1];
    if k < n - 1 {
        lemma_clip_arrives(tracks, plan, clips, at, m, k);
        let c = choose|c: int|
            tracks[t].clips.len() <= c < front[t].clips.len() && arrives_as(
                #[trigger] front[t].clips[c],
                clips[plan[k].from as int].1,
                at[plan[k].from as int],
                plan[k].content_id,
            );
        assert(now[t].clips[c] == front[t].clips[c]);
    } else {
        let c = front[t].clips.len() as int;
        assert(arrives_as(
            now[t].clips[c],
            clips[p.from as int].1,
            at[p.from as int],
            p.content_id,
        ));
    }
}

/// Every clip of a copy arrives on the track that has the id of its own, behind the clips
/// that are there, where it was placed, and shows what it showed. Only in another project
/// does one not arrive that shows what the copy does not carry.
#[verifier::rlimit(40)]
pub proof fn law_every_clip_arrives(
    song: SongModel,
    copy: TimeRangeModel,
    same_project: bool,
    next_content_id: u32,
    clips_at: Seq<Placed>,
    automation_at: Seq<Placed>,
    j: int,
    t: int,
)
    requires
        time_place::can_be_counted(song, copy),
        0 <= j < copy.clips.len(),
        0 <= t < song.tracks.len(),
        song.tracks[t].id == copy.clips[j].0,
        forall|u: int| 0 <= u < t ==> (#[trigger] song.tracks[u]).id != copy.clips[j].0,
        same_project || carries(copy.contents, copy.clips[j].1.content_id),
        same_project ==> forall|i: int|
            0 <= i < copy.clips.len() ==> (#[trigger] copy.clips[i]).1.content_id < ids::fresh(next_content_id),
        same_project ==> forall|i: int|
            0 <= i < copy.automation.len() ==> (#[trigger] copy.automation[i]).2.content_id < ids::fresh(
                next_content_id,
            ),
    ensures
        ({
            let now = time_place::pasted(song, copy, same_project, next_content_id, clips_at, automation_at);
            exists|c: int|
                song.tracks[t].clips.len() <= c < now.tracks[t].clips.len() && arrives_as(
                    #[trigger] now.tracks[t].clips[c],
                    copy.clips[j].1,
                    clips_at[j],
                    now.tracks[t].clips[c].content_id,
                ) && shows_the_same(
                    now.tracks[t].clips[c].content_id,
                    copy.clips[j].1.content_id,
                    song.clip_contents,
                    now.clip_contents,
                    copy.contents,
                    same_project,
                )
        }),
{
    let (end, plan, parts) = time_place::decided(song, copy, same_project, next_content_id);
    let copies = time_paste::copied_ids(copy.contents);
    let start = time_paste::undecided(song, next_content_id);
    let base = time_paste::content_ids(song);
    let first = ids::fresh(next_content_id);
    let placed = SongModel {
        tracks: time_place::with_clips(song.tracks, plan, copy.clips, clips_at, plan.len()),
        clip_contents: song.clip_contents + time_place::made_anew(end.created, copy.contents),
        ..song
    };
    let now = time_place::pasted(song, copy, same_project, next_content_id, clips_at, automation_at);
    time_place::lemma_decided(song, copy, same_project, next_content_id);
    lookup::lemma_track_place(song.tracks, copy.clips[j].0);
    assert(lookup::track_place(song.tracks, copy.clips[j].0) == Some(t));
    lemma_carried(copy.contents, copy.clips[j].1.content_id);
    assert(decides_right(start, base, first, copies, same_project));
    lemma_planned(copy.clips, song.tracks, copies, same_project, start, base, first, copy.clips.len(), j);
    let (mid, _clips) = time_paste::plan_clips(copy.clips, song.tracks, copies, same_project, start, copy.clips.len());
    lemma_planned_parts(copy.automation, song, copies, same_project, mid, base, first, copy.automation.len(), 0);
    let from = copy.clips[j].1.content_id;
    let k = choose|k: int|
        0 <= k < plan.len() && is_planned(#[trigger] plan[k], j, t, from, base, mid.created, copies, same_project);
    lemma_prefix_contains(mid.created, end.created, (from, plan[k].content_id));
    lemma_clip_arrives(song.tracks, plan, copy.clips, clips_at, plan.len(), k);
    lemma_shows(song, copy, same_project, end.created, plan[k].content_id, from);
    lemma_parts_leave(song, placed, plan, parts, copy, clips_at, automation_at, t);
    let clips = placed.tracks[t].clips;
    let c = choose|c: int|
        song.tracks[t].clips.len() <= c < clips.len() && arrives_as(
            #[trigger] clips[c],
            copy.clips[j].1,
            clips_at[j],
            plan[k].content_id,
        );
    assert(now.tracks[t].clips[c] == clips[c]);
}

proof fn lemma_carried(contents: Seq<CopiedModel>, id: u32)
    ensures
        carries(contents, id) == time_paste::copied_ids(contents).contains(id),
{
    let copies = time_paste::copied_ids(contents);
    if carries(contents, id) {
        let i = choose|i: int| 0 <= i < contents.len() && (#[trigger] contents[i]).id == id;
        assert(copies[i] == id);
    }
    if copies.contains(id) {
        let i = choose|i: int| 0 <= i < copies.len() && copies[i] == id;
        assert(contents[i].id == id);
    }
}

proof fn lemma_shows(
    song: SongModel,
    copy: TimeRangeModel,
    same_project: bool,
    created: Seq<(u32, u32)>,
    to: u32,
    from: u32,
)
    requires
        is_decided_right(
            to,
            from,
            time_paste::content_ids(song),
            created,
            time_paste::copied_ids(copy.contents),
            same_project,
        ),
    ensures
        shows_the_same(
            to,
            from,
            song.clip_contents,
            song.clip_contents + time_place::made_anew(created, copy.contents),
            copy.contents,
            same_project,
        ),
{
    let base = time_paste::content_ids(song);
    let copies = time_paste::copied_ids(copy.contents);
    let made = time_place::made_anew(created, copy.contents);
    let now = song.clip_contents + made;
    if has_content(song.clip_contents, from) {
        let i = choose|i: int| 0 <= i < song.clip_contents.len() && (#[trigger] song.clip_contents[i]).0 == from;
        assert(base[i] == from);
        assert(base.contains(from));
    }
    if base.contains(from) {
        let i = choose|i: int| 0 <= i < base.len() && base[i] == from;
        assert(song.clip_contents[i].0 == from);
    }
    lemma_carried(copy.contents, from);
    if !(same_project && base.contains(from)) && copies.contains(from) {
        let q = choose|q: int| 0 <= q < created.len() && created[q] == (from, to);
        time_place::lemma_place(copies, from, 0);
        let i = time_place::copied_place(copy.contents, from)->0;
        assert(copies[i] == from);
        assert(copy.contents[i].id == from);
        let k = song.clip_contents.len() + q;
        assert(now[k] == made[q]);
        assert(now[k] == (to, copy.contents[i].content));
    }
}

proof fn lemma_parts_leave(
    song: SongModel,
    placed: SongModel,
    plan: Seq<PastedClip>,
    parts: Seq<PastedPart>,
    copy: TimeRangeModel,
    clips_at: Seq<Placed>,
    automation_at: Seq<Placed>,
    t: int,
)
    requires
        0 <= t < song.tracks.len(),
        placed == (SongModel {
            tracks: time_place::with_clips(song.tracks, plan, copy.clips, clips_at, plan.len()),
            clip_contents: placed.clip_contents,
            ..song
        }),
        time_place::clips_are_there(plan, song.tracks.len(), copy.clips.len()),
        time_place::parts_are_there(parts, song, copy.automation.len()),
    ensures
        ({
            let now = time_place::with_parts(placed, parts, copy.automation, automation_at, parts.len());
            &&& time_place::parts_are_there(parts, placed, copy.automation.len())
            &&& now.tracks.len() == song.tracks.len()
            &&& now.tracks[t].clips == placed.tracks[t].clips
            &&& now.clip_contents == placed.clip_contents
        }),
{
    time_place::lemma_clips_stay(song.tracks, plan, copy.clips, clips_at, plan.len(), t);
    time_place::lemma_clips_keep_lanes(song.tracks, plan, copy.clips, clips_at, plan.len());
    assert forall|k: int| 0 <= k < parts.len() implies time_place::has_lane(placed, #[trigger] parts[k])
        && parts[k].from < copy.automation.len() by {
        assert(time_place::has_lane(song, parts[k]));
    }
    time_place::lemma_parts_leave_clips(placed, parts, copy.automation, automation_at, parts.len(), t);
}

// ---------------------------------------------------------------------------
// Lanes
// ---------------------------------------------------------------------------

/// Whether a clip of a copy is planned for its lane.
spec fn is_part_planned(
    p: PastedPart,
    j: int,
    lane: (Option<usize>, usize),
    from: u32,
    base: Seq<u32>,
    created: Seq<(u32, u32)>,
    copies: Seq<u32>,
    same_project: bool,
) -> bool {
    &&& p.from == j
    &&& p.track == lane.0
    &&& p.lane == lane.1
    &&& is_decided_right(p.content_id, from, base, created, copies, same_project)
}

proof fn lemma_planned_parts(
    parts: Seq<(u32, u32, AutomationClip)>,
    song: SongModel,
    copies: Seq<u32>,
    same_project: bool,
    start: Resolved,
    base: Seq<u32>,
    first: u32,
    n: nat,
    j: int,
)
    requires
        n <= parts.len() <= usize::MAX,
        decides_right(start, base, first, copies, same_project),
        same_project ==> forall|i: int| 0 <= i < parts.len() ==> (#[trigger] parts[i]).2.content_id < first,
    ensures
        ({
            let (st, plan) = time_paste::plan_parts(parts, song, copies, same_project, start, n);
            &&& decides_right(st, base, first, copies, same_project)
            &&& start.created.is_prefix_of(st.created)
            &&& 0 <= j < n && time_paste::lane_at(song, parts[j].0, parts[j].1) is Some && (same_project
                || copies.contains(parts[j].2.content_id)) ==> exists|k: int|
                0 <= k < plan.len() && is_part_planned(
                    #[trigger] plan[k],
                    j,
                    time_paste::lane_at(song, parts[j].0, parts[j].1)->0,
                    parts[j].2.content_id,
                    base,
                    st.created,
                    copies,
                    same_project,
                )
        }),
    decreases n,
{
    if n > 0 {
        let m = n - 1;
        lemma_planned_parts(parts, song, copies, same_project, start, base, first, m as nat, j);
        let (st, front) = time_paste::plan_parts(parts, song, copies, same_project, start, m as nat);
        let (next, plan) = time_paste::plan_parts(parts, song, copies, same_project, start, n);
        lemma_resolve(st, parts[m].2.content_id, base, first, copies, same_project);
        assert(start.created.is_prefix_of(next.created)) by {
            assert(start.created =~= next.created.subrange(0, start.created.len() as int));
        }
        if 0 <= j < n && time_paste::lane_at(song, parts[j].0, parts[j].1) is Some && (same_project || copies.contains(
            parts[j].2.content_id,
        )) {
            let lane = time_paste::lane_at(song, parts[j].0, parts[j].1)->0;
            let from = parts[j].2.content_id;
            if j < m {
                let k = choose|k: int|
                    0 <= k < front.len() && is_part_planned(
                        #[trigger] front[k],
                        j,
                        lane,
                        from,
                        base,
                        st.created,
                        copies,
                        same_project,
                    );
                assert(plan[k] == front[k]);
                lemma_prefix_contains(st.created, next.created, (from, plan[k].content_id));
                assert(is_part_planned(plan[k], j, lane, from, base, next.created, copies, same_project));
            } else {
                let k = front.len() as int;
                assert(is_part_planned(plan[k], j, lane, from, base, next.created, copies, same_project));
            }
        }
    }
}

/// As [`arrives_as`], of a lane.
pub open spec fn part_arrives_as(c: AutomationClip, copied: AutomationClip, at: Placed, content_id: u32) -> bool {
    &&& c.start_beat == at.start_beat
    &&& c.end_beat == at.end_beat
    &&& c.content_id == content_id
    &&& c.length_beats == copied.length_beats
    &&& c.content_offset_beats == copied.content_offset_beats
    &&& c.id != 0
}

/// The lane of a song: of a track, or of the song itself.
pub open spec fn lane_in(song: SongModel, t: Option<int>, l: int) -> LaneModel {
    match t {
        Some(t) => song.tracks[t].automation_lanes[l],
        None => song.song_lanes[l],
    }
}

proof fn lemma_part_arrives(
    song: SongModel,
    plan: Seq<PastedPart>,
    parts: Seq<(u32, u32, AutomationClip)>,
    at: Seq<Placed>,
    n: nat,
    k: int,
    t: Option<int>,
    l: int,
)
    requires
        0 <= k < n <= plan.len(),
        time_place::parts_are_there(plan, song, parts.len()),
        plan[k].lane == l,
        match plan[k].track {
            Some(u) => t == Some(u as int),
            None => t is None,
        },
    ensures
        ({
            let now = lane_in(time_place::with_parts(song, plan, parts, at, n), t, l).clips;
            exists|c: int|
                lane_in(song, t, l).clips.len() <= c < now.len() && part_arrives_as(
                    #[trigger] now[c],
                    parts[plan[k].from as int].2,
                    at[plan[k].from as int],
                    plan[k].content_id,
                )
        }),
    decreases n,
{
    let m = (n - 1) as nat;
    let front = time_place::with_parts(song, plan, parts, at, m);
    let now = time_place::with_parts(song, plan, parts, at, n);
    assert(time_place::has_lane(song, plan[k]));
    time_place::lemma_parts_stay(song, plan, parts, at, m, t, l);
    let p = plan[n - 1];
    time_place::lemma_parts_keep_lanes(song, plan, parts, at, m, p);
    assert(time_place::has_lane(front, p));
    let a = lane_in(front, t, l).clips;
    let b = lane_in(now, t, l).clips;
    if k < n - 1 {
        lemma_part_arrives(song, plan, parts, at, m, k, t, l);
        let c = choose|c: int|
            lane_in(song, t, l).clips.len() <= c < a.len() && part_arrives_as(
                #[trigger] a[c],
                parts[plan[k].from as int].2,
                at[plan[k].from as int],
                plan[k].content_id,
            );
        assert(b[c] == a[c]);
    } else {
        let c = a.len() as int;
        assert(part_arrives_as(b[c], parts[p.from as int].2, at[p.from as int], p.content_id));
    }
}

/// The lanes of a song: of a track, or of the song itself.
pub open spec fn lanes_in(song: SongModel, t: Option<int>) -> Seq<LaneModel> {
    match t {
        Some(t) => song.tracks[t].automation_lanes,
        None => song.song_lanes,
    }
}

/// Whether a lane of a song has the ids that a clip was copied from: the first such lane
/// of the first such track, or of the song itself.
pub open spec fn is_home(song: SongModel, track_id: u32, lane_id: u32, t: Option<int>, l: int) -> bool {
    let lanes = lanes_in(song, t);
    &&& match t {
        Some(t) => {
            &&& track_id != MASTER_TRACK_ID
            &&& 0 <= t < song.tracks.len()
            &&& song.tracks[t].id == track_id
            &&& forall|u: int| 0 <= u < t ==> (#[trigger] song.tracks[u]).id != track_id
        },
        None => track_id == MASTER_TRACK_ID,
    }
    &&& 0 <= l < lanes.len()
    &&& lanes[l].id == lane_id
    &&& forall|m: int| 0 <= m < l ==> (#[trigger] lanes[m]).id != lane_id
}

proof fn lemma_lane_place(lanes: Seq<LaneModel>, id: u32, l: int)
    requires
        0 <= l < lanes.len(),
        lanes[l].id == id,
        forall|m: int| 0 <= m < l ==> (#[trigger] lanes[m]).id != id,
    ensures
        ids::place(track_ids::lane_ids(lanes), id) == Some(l),
{
    let s = track_ids::lane_ids(lanes);
    assert forall|m: int| 0 <= m < lanes.len() implies #[trigger] s[m] == lanes[m].id by {}
    lemma_place_is(s, id, l, 0);
}

proof fn lemma_place_is(s: Seq<u32>, id: u32, l: int, from: int)
    requires
        0 <= from <= l < s.len(),
        s[l] == id,
        forall|m: int| from <= m < l ==> #[trigger] s[m] != id,
    ensures
        ids::place_from(s, id, from) == Some(l),
    decreases l - from,
{
    if from < l {
        lemma_place_is(s, id, l, from + 1);
    }
}

/// As [`law_every_clip_arrives`], of lanes: every clip arrives on the lane that it was
/// copied from.
#[verifier::rlimit(40)]
pub proof fn law_every_clip_of_a_lane_arrives(
    song: SongModel,
    copy: TimeRangeModel,
    same_project: bool,
    next_content_id: u32,
    clips_at: Seq<Placed>,
    automation_at: Seq<Placed>,
    j: int,
    t: Option<int>,
    l: int,
)
    requires
        time_place::can_be_counted(song, copy),
        0 <= j < copy.automation.len(),
        is_home(song, copy.automation[j].0, copy.automation[j].1, t, l),
        same_project || carries(copy.contents, copy.automation[j].2.content_id),
        same_project ==> forall|i: int|
            0 <= i < copy.clips.len() ==> (#[trigger] copy.clips[i]).1.content_id < ids::fresh(next_content_id),
        same_project ==> forall|i: int|
            0 <= i < copy.automation.len() ==> (#[trigger] copy.automation[i]).2.content_id < ids::fresh(
                next_content_id,
            ),
    ensures
        ({
            let now = time_place::pasted(song, copy, same_project, next_content_id, clips_at, automation_at);
            let clips = lane_in(now, t, l).clips;
            exists|c: int|
                lane_in(song, t, l).clips.len() <= c < clips.len() && part_arrives_as(
                    #[trigger] clips[c],
                    copy.automation[j].2,
                    automation_at[j],
                    clips[c].content_id,
                ) && shows_the_same(
                    clips[c].content_id,
                    copy.automation[j].2.content_id,
                    song.clip_contents,
                    now.clip_contents,
                    copy.contents,
                    same_project,
                )
        }),
{
    let (end, plan, parts) = time_place::decided(song, copy, same_project, next_content_id);
    let copies = time_paste::copied_ids(copy.contents);
    let start = time_paste::undecided(song, next_content_id);
    let base = time_paste::content_ids(song);
    let first = ids::fresh(next_content_id);
    let placed = SongModel {
        tracks: time_place::with_clips(song.tracks, plan, copy.clips, clips_at, plan.len()),
        clip_contents: song.clip_contents + time_place::made_anew(end.created, copy.contents),
        ..song
    };
    let now = time_place::pasted(song, copy, same_project, next_content_id, clips_at, automation_at);
    time_place::lemma_decided(song, copy, same_project, next_content_id);
    let (track_id, lane_id, part) = copy.automation[j];
    let lane = match t {
        Some(t) => (Some(t as usize), l as usize),
        None => (None::<usize>, l as usize),
    };
    let lanes = lanes_in(song, t);
    assert forall|m: int| 0 <= m < l implies (#[trigger] lanes[m]).id != lane_id by {}
    lemma_lane_place(lanes, lane_id, l);
    if let Some(t) = t {
        lookup::lemma_track_place(song.tracks, track_id);
        assert(lookup::track_place(song.tracks, track_id) == Some(t));
    }
    assert(time_paste::lane_at(song, track_id, lane_id) == Some(lane));
    let from = part.content_id;
    lemma_carried(copy.contents, from);
    assert(decides_right(start, base, first, copies, same_project));
    lemma_planned(copy.clips, song.tracks, copies, same_project, start, base, first, copy.clips.len(), 0);
    let (mid, _clips) = time_paste::plan_clips(copy.clips, song.tracks, copies, same_project, start, copy.clips.len());
    lemma_planned_parts(copy.automation, song, copies, same_project, mid, base, first, copy.automation.len(), j);
    let k = choose|k: int|
        0 <= k < parts.len() && is_part_planned(
            #[trigger] parts[k],
            j,
            lane,
            from,
            base,
            end.created,
            copies,
            same_project,
        );
    lemma_shows(song, copy, same_project, end.created, parts[k].content_id, from);
    time_place::lemma_clips_keep_lanes(song.tracks, plan, copy.clips, clips_at, plan.len());
    assert forall|k: int| 0 <= k < parts.len() implies time_place::has_lane(placed, #[trigger] parts[k])
        && parts[k].from < copy.automation.len() by {
        assert(time_place::has_lane(song, parts[k]));
    }
    time_place::lemma_parts_keep_contents(placed, parts, copy.automation, automation_at, parts.len());
    lemma_part_arrives(placed, parts, copy.automation, automation_at, parts.len(), k, t, l);
    if let Some(t) = t {
        lemma_clips_leave_lanes(song.tracks, plan, copy.clips, clips_at, plan.len(), t);
    }
    let clips = lane_in(now, t, l).clips;
    let c = choose|c: int|
        lane_in(placed, t, l).clips.len() <= c < clips.len() && part_arrives_as(
            #[trigger] clips[c],
            part,
            automation_at[j],
            parts[k].content_id,
        );
    assert(lane_in(placed, t, l) == lane_in(song, t, l));
}

proof fn lemma_clips_leave_lanes(
    tracks: Seq<TrackModel>,
    plan: Seq<PastedClip>,
    clips: Seq<(u32, Clip)>,
    at: Seq<Placed>,
    n: nat,
    t: int,
)
    requires
        0 <= t < tracks.len(),
        n <= plan.len(),
        time_place::clips_are_there(plan, tracks.len(), clips.len()),
    ensures
        time_place::with_clips(tracks, plan, clips, at, n).len() == tracks.len(),
        time_place::with_clips(tracks, plan, clips, at, n)[t].automation_lanes == tracks[t].automation_lanes,
    decreases n,
{
    if n > 0 {
        lemma_clips_leave_lanes(tracks, plan, clips, at, (n - 1) as nat, t);
    }
}

} // verus!
