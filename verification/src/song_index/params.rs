//! Lanes and routings by what they move.

use crate::beat::Beat;
use crate::model;
use crate::model::automation::{
    AutomationClip, AutomationLane, AutomationTarget, LaneModel, ModRouting, SessionAutomationClip, TrackBuiltinParam,
};
use crate::model::ids;
use crate::model::track_ids;
use super::cells;
use super::cells::{CellIndex, CellSlice, SessionCells};
use super::positions;
use super::positions::{key_of_wide, GroupIndex, PositionIndex};
use super::ranges;
use super::ranges::CoverIndex;
use vstd::prelude::*;

verus! {

// ---------------------------------------------------------------------------
// Subjects
// ---------------------------------------------------------------------------

/// What lanes and routings are gathered by: all parameters of one device, of
/// one chain, and so on.
#[derive(Clone, Copy, Debug, PartialEq, Eq, Hash, Structural)]
pub enum ParamSubject {
    /// The volume, the pan and the mute of a track itself.
    Track,
    Send(u32),
    Chain(u64),
    Parallel(u64),
    Plugin(u64),
    Native(u64),
    MasterLimiter,
    /// The tempo, the time signature and the transposition.
    Song,
    ModSource(u32),
    ModRouting(u32),
    /// Pictures, texts and groups of them.
    Visual,
}

/// The subject of a target.
pub open spec fn subject_of(target: AutomationTarget) -> ParamSubject {
    match target {
        AutomationTarget::TrackBuiltin(b) => match b {
            TrackBuiltinParam::Volume => ParamSubject::Track,
            TrackBuiltinParam::Pan => ParamSubject::Track,
            TrackBuiltinParam::Mute => ParamSubject::Track,
            TrackBuiltinParam::SendGain { send_id } => ParamSubject::Send(send_id),
            TrackBuiltinParam::ChainGain { chain_id } => ParamSubject::Chain(chain_id),
            TrackBuiltinParam::ChainPan { chain_id } => ParamSubject::Chain(chain_id),
            TrackBuiltinParam::ParallelOutGain { parallel_id } => ParamSubject::Parallel(parallel_id),
            TrackBuiltinParam::ParallelSplitFreq { parallel_id, index } => ParamSubject::Parallel(parallel_id),
            TrackBuiltinParam::ParallelSelect { parallel_id } => ParamSubject::Parallel(parallel_id),
        },
        AutomationTarget::PluginParam { device_id, param_id } => ParamSubject::Plugin(device_id),
        AutomationTarget::NativeParam { device_id, param } => ParamSubject::Native(device_id),
        AutomationTarget::MasterLimiter(_) => ParamSubject::MasterLimiter,
        AutomationTarget::SongTempo => ParamSubject::Song,
        AutomationTarget::SongTimeSigNumerator => ParamSubject::Song,
        AutomationTarget::SongTranspose => ParamSubject::Song,
        AutomationTarget::ModSourceParam { source_id, source_param } => ParamSubject::ModSource(source_id),
        AutomationTarget::ModRoutingDepth { routing_id } => ParamSubject::ModRouting(routing_id),
        AutomationTarget::ImageBuiltin(_) => ParamSubject::Visual,
        AutomationTarget::TextBuiltin(_) => ParamSubject::Visual,
        AutomationTarget::GroupTransform(_) => ParamSubject::Visual,
    }
}

/// A subject as two numbers.
pub open spec fn subject_parts(s: ParamSubject) -> (u64, u64) {
    match s {
        ParamSubject::Track => (0, 0),
        ParamSubject::Send(id) => (1, id as u64),
        ParamSubject::Chain(id) => (2, id),
        ParamSubject::Parallel(id) => (3, id),
        ParamSubject::Plugin(id) => (4, id),
        ParamSubject::Native(id) => (5, id),
        ParamSubject::MasterLimiter => (6, 0),
        ParamSubject::Song => (7, 0),
        ParamSubject::ModSource(id) => (8, id as u64),
        ParamSubject::ModRouting(id) => (9, id as u64),
        ParamSubject::Visual => (10, 0),
    }
}

/// A subject as a key.
pub open spec fn subject_key(s: ParamSubject) -> u128 {
    positions::wide_key(subject_parts(s).0, subject_parts(s).1)
}

/// Every subject has a key of its own.
pub proof fn law_subjects_have_their_own_keys(a: ParamSubject, b: ParamSubject)
    ensures
        subject_key(a) == subject_key(b) <==> a == b,
{
    positions::lemma_wide_key(subject_parts(a).0, subject_parts(a).1, subject_parts(b).0, subject_parts(b).1);
}

impl ParamSubject {
    /// The subject of a target, see [`subject_of`].
    pub fn of(target: &AutomationTarget) -> (r: ParamSubject)
        ensures
            r == subject_of(*target),
    {
        match target {
            AutomationTarget::TrackBuiltin(b) => match b {
                TrackBuiltinParam::Volume => ParamSubject::Track,
                TrackBuiltinParam::Pan => ParamSubject::Track,
                TrackBuiltinParam::Mute => ParamSubject::Track,
                TrackBuiltinParam::SendGain { send_id } => ParamSubject::Send(*send_id),
                TrackBuiltinParam::ChainGain { chain_id } => ParamSubject::Chain(*chain_id),
                TrackBuiltinParam::ChainPan { chain_id } => ParamSubject::Chain(*chain_id),
                TrackBuiltinParam::ParallelOutGain { parallel_id } => ParamSubject::Parallel(*parallel_id),
                TrackBuiltinParam::ParallelSplitFreq { parallel_id, .. } => ParamSubject::Parallel(*parallel_id),
                TrackBuiltinParam::ParallelSelect { parallel_id } => ParamSubject::Parallel(*parallel_id),
            },
            AutomationTarget::PluginParam { device_id, .. } => ParamSubject::Plugin(*device_id),
            AutomationTarget::NativeParam { device_id, .. } => ParamSubject::Native(*device_id),
            AutomationTarget::MasterLimiter(_) => ParamSubject::MasterLimiter,
            AutomationTarget::SongTempo => ParamSubject::Song,
            AutomationTarget::SongTimeSigNumerator => ParamSubject::Song,
            AutomationTarget::SongTranspose => ParamSubject::Song,
            AutomationTarget::ModSourceParam { source_id, .. } => ParamSubject::ModSource(*source_id),
            AutomationTarget::ModRoutingDepth { routing_id } => ParamSubject::ModRouting(*routing_id),
            AutomationTarget::ImageBuiltin(_) => ParamSubject::Visual,
            AutomationTarget::TextBuiltin(_) => ParamSubject::Visual,
            AutomationTarget::GroupTransform(_) => ParamSubject::Visual,
        }
    }

    fn key(self) -> (r: u128)
        ensures
            r == subject_key(self),
    {
        match self {
            ParamSubject::Track => key_of_wide(0, 0),
            ParamSubject::Send(id) => key_of_wide(1, id as u64),
            ParamSubject::Chain(id) => key_of_wide(2, id),
            ParamSubject::Parallel(id) => key_of_wide(3, id),
            ParamSubject::Plugin(id) => key_of_wide(4, id),
            ParamSubject::Native(id) => key_of_wide(5, id),
            ParamSubject::MasterLimiter => key_of_wide(6, 0),
            ParamSubject::Song => key_of_wide(7, 0),
            ParamSubject::ModSource(id) => key_of_wide(8, id as u64),
            ParamSubject::ModRouting(id) => key_of_wide(9, id as u64),
            ParamSubject::Visual => key_of_wide(10, 0),
        }
    }
}

// ---------------------------------------------------------------------------
// What there is to find
// ---------------------------------------------------------------------------

/// The subjects of lanes, as keys.
pub open spec fn lane_keys(lanes: Seq<LaneModel>) -> Seq<u128> {
    lanes.map_values(|l: LaneModel| subject_key(subject_of(l.target)))
}

/// The subjects of targets, as keys.
pub open spec fn target_keys(targets: Seq<AutomationTarget>) -> Seq<u128> {
    targets.map_values(|t: AutomationTarget| subject_key(subject_of(t)))
}

/// The lanes of a subject, by place and in order.
pub open spec fn lanes_for(lanes: Seq<LaneModel>, subject: ParamSubject) -> Seq<int> {
    positions::places(lane_keys(lanes), subject_key(subject))
}

/// The targets of routings, each once, in the order in which they first come.
pub open spec fn targets(routings: Seq<ModRouting>) -> Seq<AutomationTarget>
    decreases routings.len(),
{
    if routings.len() == 0 {
        Seq::empty()
    } else {
        let front = targets(routings.drop_last());
        if front.contains(routings.last().target) {
            front
        } else {
            front.push(routings.last().target)
        }
    }
}

/// The routings of a target, by place and in order.
pub open spec fn routings_to(routings: Seq<ModRouting>, target: AutomationTarget) -> Seq<int>
    decreases routings.len(),
{
    if routings.len() == 0 {
        Seq::empty()
    } else {
        let front = routings_to(routings.drop_last(), target);
        if routings.last().target == target {
            front.push(routings.len() - 1)
        } else {
            front
        }
    }
}

/// The targets of a subject, in the order in which they first come.
pub open spec fn targets_for(routings: Seq<ModRouting>, subject: ParamSubject) -> Seq<AutomationTarget> {
    positions::places(target_keys(targets(routings)), subject_key(subject)).map_values(
        |i: int| targets(routings)[i],
    )
}

/// The first enabled lane of a target, from `from` on.
pub open spec fn enabled_from(lanes: Seq<LaneModel>, target: AutomationTarget, from: int) -> Option<int>
    decreases lanes.len() - from,
{
    if from < 0 || from >= lanes.len() {
        None
    } else if lanes[from].enabled && lanes[from].target == target {
        Some(from)
    } else {
        enabled_from(lanes, target, from + 1)
    }
}

/// The clips of a lane as intervals.
pub open spec fn clip_intervals(clips: Seq<AutomationClip>) -> Seq<(Beat, Beat)> {
    clips.map_values(|c: AutomationClip| (c.start_beat, c.end_beat))
}

proof fn lemma_routings_to(routings: Seq<ModRouting>, target: AutomationTarget)
    ensures
        forall|k: int|
            0 <= k < routings_to(routings, target).len() ==> 0 <= #[trigger] routings_to(routings, target)[k]
                < routings.len() && routings[routings_to(routings, target)[k]].target == target,
        targets(routings).contains(target) == (routings_to(routings, target).len() > 0),
    decreases routings.len(),
{
    if routings.len() > 0 {
        let front = routings.drop_last();
        let last = routings.last().target;
        lemma_routings_to(front, target);
        lemma_routings_to(front, last);
        let a = routings_to(front, target);
        let b = routings_to(routings, target);
        assert forall|k: int| 0 <= k < b.len() implies 0 <= #[trigger] b[k] < routings.len() && routings[b[k]].target
            == target by {
            if k < a.len() {
                assert(b[k] == a[k]);
                assert(front[a[k]] == routings[a[k]]);
            }
        }
        let t = targets(front);
        if !t.contains(last) {
            assert(t.push(last)[t.len() as int] == last);
            if t.contains(target) {
                let i = choose|i: int| 0 <= i < t.len() && t[i] == target;
                assert(t.push(last)[i] == target);
            }
            if t.push(last).contains(target) && target != last {
                let i = choose|i: int| 0 <= i < t.push(last).len() && t.push(last)[i] == target;
                assert(t[i] == target);
            }
        }
    }
}

proof fn lemma_targets_once(routings: Seq<ModRouting>)
    ensures
        targets(routings).no_duplicates(),
        targets(routings).len() <= routings.len(),
    decreases routings.len(),
{
    if routings.len() > 0 {
        lemma_targets_once(routings.drop_last());
        let t = targets(routings.drop_last());
        let last = routings.last().target;
        if !t.contains(last) {
            let u = t.push(last);
            assert forall|i: int, j: int| 0 <= i < u.len() && 0 <= j < u.len() && i != j implies u[i] != u[j] by {
                if i < t.len() && j < t.len() {
                } else if i < t.len() {
                    assert(t.contains(t[i]));
                } else {
                    assert(t.contains(t[j]));
                }
            }
        }
    }
}

// ---------------------------------------------------------------------------
// The index
// ---------------------------------------------------------------------------

/// The routings of one target.
struct Group {
    target: AutomationTarget,
    members: Vec<usize>,
}

/// Places as numbers.
pub open spec fn numbers(v: Seq<usize>) -> Seq<int> {
    v.map_values(|i: usize| i as int)
}

/// Whether groups are those of routings.
spec fn gathers(groups: Seq<Group>, routings: Seq<ModRouting>) -> bool {
    &&& groups.len() == targets(routings).len()
    &&& forall|g: int|
        0 <= g < groups.len() ==> (#[trigger] groups[g]).target == targets(routings)[g] && numbers(
            groups[g].members@,
        ) == routings_to(routings, groups[g].target)
}

/// The lanes and routings of one store, by what they move.
pub struct ParamStoreIndex {
    n_lanes: usize,
    n_routings: usize,
    lanes: GroupIndex,
    groups: Vec<Group>,
    by_subject: GroupIndex,
    /// The clips of each lane.
    covers: Vec<CoverIndex>,
    /// The cells of each lane.
    cells: Vec<CellIndex>,
    ids: PositionIndex,
    of: Ghost<(Seq<LaneModel>, Seq<ModRouting>)>,
}

/// Whether a lane is indexed by its clips and its cells.
pub open spec fn indexes_lane(lane: LaneModel, cover: CoverIndex, index: CellIndex) -> bool {
    &&& cover.of() == clip_intervals(lane.clips)
    &&& index.clips() == cells::lane_clip_ids(lane.session_clips)
    &&& index.scenes() == cells::lane_scene_ids(lane.session_clips)
}

/// The clips of a lane as intervals.
pub(crate) fn read_intervals(clips: &Vec<AutomationClip>) -> (r: Vec<(Beat, Beat)>)
    ensures
        r@ == clip_intervals(clips@),
{
    let mut r: Vec<(Beat, Beat)> = Vec::new();
    let mut i: usize = 0;
    while i < clips.len()
        invariant
            i <= clips@.len(),
            r@.len() == i,
            forall|k: int| 0 <= k < i ==> #[trigger] r@[k] == (clips@[k].start_beat, clips@[k].end_beat),
        decreases clips@.len() - i,
    {
        r.push((clips[i].start_beat, clips[i].end_beat));
        i += 1;
    }
    assert(r@ =~= clip_intervals(clips@));
    r
}

/// The place of the group of a target.
fn find_group(groups: &Vec<Group>, target: &AutomationTarget) -> (r: Option<usize>)
    ensures
        match r {
            Some(g) => g < groups@.len() && groups@[g as int].target == *target,
            None => forall|g: int| 0 <= g < groups@.len() ==> (#[trigger] groups@[g]).target != *target,
        },
{
    let mut g: usize = 0;
    while g < groups.len()
        invariant
            g <= groups@.len(),
            forall|k: int| 0 <= k < g ==> (#[trigger] groups@[k]).target != *target,
        decreases groups@.len() - g,
    {
        if groups[g].target == *target {
            return Some(g);
        }
        g += 1;
    }
    None
}

/// The groups of routings.
fn gather(routings: &Vec<ModRouting>) -> (r: Vec<Group>)
    ensures
        gathers(r@, routings@),
{
    let ghost all = routings@;
    let mut groups: Vec<Group> = Vec::new();
    let mut n: usize = 0;
    assert(all.take(0) =~= Seq::<ModRouting>::empty());
    while n < routings.len()
        invariant
            all == routings@,
            n <= all.len(),
            gathers(groups@, all.take(n as int)),
        decreases all.len() - n,
    {
        let ghost upto = all.take(n as int);
        let ghost next = all.take(n + 1);
        let ghost before = groups@;
        let target = routings[n].target;
        proof {
            assert(next.drop_last() =~= upto);
            assert(next.last() == all[n as int]);
            lemma_targets_once(upto);
        }
        match find_group(&groups, &target) {
            Some(g) => {
                proof {
                    assert(targets(upto)[g as int] == target);
                    assert(targets(upto).contains(target));
                }
                let group = &mut groups[g];
                group.members.push(n);
                proof {
                    assert forall|k: int| 0 <= k < groups@.len() implies (#[trigger] groups@[k]).target == targets(
                        next,
                    )[k] && numbers(groups@[k].members@) == routings_to(next, groups@[k].target) by {
                        assert(before[k].target == targets(upto)[k]);
                        if k == g {
                            assert(numbers(groups@[k].members@) =~= numbers(before[k].members@).push(n as int));
                        } else {
                            assert(groups@[k] == before[k]);
                            assert(targets(upto)[k] != targets(upto)[g as int]);
                        }
                    }
                }
            },
            None => {
                proof {
                    if targets(upto).contains(target) {
                        let g = choose|g: int| 0 <= g < targets(upto).len() && targets(upto)[g] == target;
                        assert(before[g].target == targets(upto)[g]);
                    }
                    lemma_routings_to(upto, target);
                    assert(routings_to(upto, target) =~= Seq::<int>::empty());
                }
                let mut members: Vec<usize> = Vec::new();
                members.push(n);
                assert(numbers(members@) =~= routings_to(next, target));
                groups.push(Group { target, members });
                proof {
                    assert forall|k: int| 0 <= k < groups@.len() implies (#[trigger] groups@[k]).target == targets(
                        next,
                    )[k] && numbers(groups@[k].members@) == routings_to(next, groups@[k].target) by {
                        if k < before.len() {
                            assert(groups@[k] == before[k]);
                            assert(before[k].target == targets(upto)[k]);
                            assert(targets(upto).contains(targets(upto)[k]));
                        }
                    }
                }
            },
        }
        n += 1;
    }
    assert(all.take(n as int) =~= all);
    groups
}

impl ParamStoreIndex {
    /// The lanes that this is the index of.
    pub closed spec fn lanes(self) -> Seq<LaneModel> {
        self.of@.0
    }

    /// The routings that this is the index of.
    pub closed spec fn routings(self) -> Seq<ModRouting> {
        self.of@.1
    }

    #[verifier::type_invariant]
    spec fn inv(self) -> bool {
        let lanes = self.of@.0;
        let routings = self.of@.1;
        &&& self.n_lanes == lanes.len()
        &&& self.n_routings == routings.len()
        &&& self.lanes.of() == lane_keys(lanes)
        &&& gathers(self.groups@, routings)
        &&& self.by_subject.of() == target_keys(targets(routings))
        &&& self.covers@.len() == lanes.len()
        &&& self.cells@.len() == lanes.len()
        &&& forall|i: int|
            0 <= i < lanes.len() ==> indexes_lane(lanes[i], #[trigger] self.covers@[i], self.cells@[i])
        &&& self.ids.of() == positions::id_keys(track_ids::lane_ids(lanes))
    }

    /// The index of lanes and routings.
    pub fn build(lanes: &Vec<AutomationLane>, routings: &Vec<ModRouting>) -> (r: ParamStoreIndex)
        ensures
            r.lanes() == model::models(lanes@),
            r.routings() == routings@,
    {
        let ghost lm = model::models(lanes@);
        let mut keys: Vec<u128> = Vec::new();
        let mut ids: Vec<u128> = Vec::new();
        let mut covers: Vec<CoverIndex> = Vec::new();
        let mut cells: Vec<CellIndex> = Vec::new();
        let mut i: usize = 0;
        while i < lanes.len()
            invariant
                lm == model::models(lanes@),
                i <= lanes@.len(),
                keys@ == lane_keys(lm).take(i as int),
                ids@ == positions::id_keys(track_ids::lane_ids(lm)).take(i as int),
                covers@.len() == i,
                cells@.len() == i,
                forall|k: int| 0 <= k < i ==> indexes_lane(lm[k], #[trigger] covers@[k], cells@[k]),
            decreases lanes@.len() - i,
        {
            let lane = &lanes[i];
            assert(lm[i as int] == lane@);
            keys.push(ParamSubject::of(&lane.target).key());
            ids.push(lane.id as u128);
            covers.push(CoverIndex::build(&read_intervals(&lane.clips)));
            cells.push(CellIndex::build(CellSlice::Lane(&lane.session_clips)));
            proof {
                assert(keys@ =~= lane_keys(lm).take(i + 1));
                assert(ids@ =~= positions::id_keys(track_ids::lane_ids(lm)).take(i + 1));
            }
            i += 1;
        }
        proof {
            assert(lane_keys(lm).take(i as int) =~= lane_keys(lm));
            assert(positions::id_keys(track_ids::lane_ids(lm)).take(i as int) =~= positions::id_keys(
                track_ids::lane_ids(lm),
            ));
        }
        let groups = gather(routings);
        let ghost tk = target_keys(targets(routings@));
        let mut subjects: Vec<u128> = Vec::new();
        let mut g: usize = 0;
        while g < groups.len()
            invariant
                gathers(groups@, routings@),
                tk == target_keys(targets(routings@)),
                g <= groups@.len(),
                subjects@ == tk.take(g as int),
            decreases groups@.len() - g,
        {
            assert(groups@[g as int].target == targets(routings@)[g as int]);
            subjects.push(ParamSubject::of(&groups[g].target).key());
            assert(subjects@ =~= tk.take(g + 1));
            g += 1;
        }
        assert(tk.take(g as int) =~= tk);
        ParamStoreIndex {
            n_lanes: lanes.len(),
            n_routings: routings.len(),
            lanes: GroupIndex::build(&keys),
            groups,
            by_subject: GroupIndex::build(&subjects),
            covers,
            cells,
            ids: PositionIndex::build(&ids),
            of: Ghost((lm, routings@)),
        }
    }

    fn fits(&self, n_lanes: usize, n_routings: usize) -> (r: bool)
        ensures
            r == (self.lanes().len() == n_lanes && self.routings().len() == n_routings),
    {
        proof {
            use_type_invariant(self);
        }
        self.n_lanes == n_lanes && self.n_routings == n_routings
    }

    /// The clips of the lane at place `i`.
    fn cover(&self, i: usize) -> (r: &CoverIndex)
        requires
            i < self.lanes().len(),
        ensures
            r.of() == clip_intervals(self.lanes()[i as int].clips),
    {
        proof {
            use_type_invariant(self);
            assert(indexes_lane(self.lanes()[i as int], self.covers@[i as int], self.cells@[i as int]));
        }
        &self.covers[i]
    }

    /// The cells of the lane at place `i`.
    pub fn lane_cells(&self, i: usize) -> (r: Option<&CellIndex>)
        ensures
            r is Some == (i < self.lanes().len()),
            r matches Some(c) ==> c.clips() == cells::lane_clip_ids(self.lanes()[i as int].session_clips) && c.scenes()
                == cells::lane_scene_ids(self.lanes()[i as int].session_clips),
    {
        proof {
            use_type_invariant(self);
        }
        if i < self.cells.len() {
            assert(indexes_lane(self.lanes()[i as int], self.covers@[i as int], self.cells@[i as int]));
            Some(&self.cells[i])
        } else {
            None
        }
    }

    fn find_lanes(&self, subject: ParamSubject) -> (r: Vec<usize>)
        ensures
            numbers(r@) == lanes_for(self.lanes(), subject),
            forall|i: int| 0 <= i < r@.len() ==> #[trigger] r@[i] < self.lanes().len(),
    {
        proof {
            use_type_invariant(self);
        }
        self.lanes.find_all(subject.key())
    }

    fn find_id(&self, id: u32) -> (r: Option<usize>)
        ensures
            match r {
                Some(i) => i < self.lanes().len() && ids::place(track_ids::lane_ids(self.lanes()), id) == Some(i as int),
                None => ids::place(track_ids::lane_ids(self.lanes()), id) is None,
            },
    {
        proof {
            use_type_invariant(self);
            positions::lemma_id_place(track_ids::lane_ids(self.of@.0), id, 0);
        }
        self.ids.find(id as u128)
    }

    fn find_groups(&self, subject: ParamSubject) -> (r: Vec<usize>)
        ensures
            numbers(r@) == positions::places(target_keys(targets(self.routings())), subject_key(subject)),
            forall|i: int| 0 <= i < r@.len() ==> #[trigger] r@[i] < targets(self.routings()).len(),
    {
        proof {
            use_type_invariant(self);
        }
        self.by_subject.find_all(subject.key())
    }

    fn group_members(&self, g: usize) -> (r: &Vec<usize>)
        requires
            g < targets(self.routings()).len(),
        ensures
            numbers(r@) == routings_to(self.routings(), targets(self.routings())[g as int]),
    {
        proof {
            use_type_invariant(self);
        }
        &self.groups[g].members
    }
}

// ---------------------------------------------------------------------------
// A store with its index
// ---------------------------------------------------------------------------

/// A lane with the indexes of its clips and cells.
#[derive(Clone, Copy)]
pub struct LaneView<'a> {
    /// The place in the store.
    pub pos: usize,
    pub lane: &'a AutomationLane,
    pub cover: &'a CoverIndex,
    pub cells: SessionCells<'a>,
}

impl<'a> LaneView<'a> {
    /// Whether the indexes are those of the lane.
    pub open spec fn valid(self) -> bool {
        &&& self.cover.of() == clip_intervals(self.lane@.clips)
        &&& self.cells.indexed()
        &&& self.cells.cells == CellSlice::Lane(&self.lane.session_clips)
    }

    /// Whether the indexes are those of the lane that was there before.
    pub open spec fn indexed_as(self, was: LaneModel) -> bool {
        &&& self.cover.of() == clip_intervals(was.clips)
        &&& self.cells.cells == CellSlice::Lane(&self.lane.session_clips)
        &&& self.cells.indexed_as(cells::lane_clip_ids(was.session_clips), cells::lane_scene_ids(was.session_clips))
    }

    /// The clip at `beat`: the first one that covers it. None if there is no clip
    /// at its place.
    pub fn arrangement_clip(self, beat: Beat) -> (r: Option<&'a AutomationClip>)
        ensures
            match r {
                Some(c) => ranges::covering(self.cover.of(), beat) matches Some(i) && 0 <= i < self.lane@.clips.len()
                    && *c == self.lane@.clips[i],
                None => ranges::covering(self.cover.of(), beat) matches Some(i) ==> i >= self.lane@.clips.len(),
            },
            self.valid() && r is None ==> ranges::covering(clip_intervals(self.lane@.clips), beat) is None,
    {
        match self.cover.first_covering(beat) {
            Some(i) => if i < self.lane.clips.len() {
                Some(&self.lane.clips[i])
            } else {
                None
            },
            None => None,
        }
    }

    /// The cell whose clip has id `clip_id`. None if there is no cell at its place.
    pub fn cell(self, clip_id: u32) -> (r: Option<&'a SessionAutomationClip>)
        ensures
            match r {
                Some(c) => ids::place(self.cells.known_clips(), clip_id) matches Some(i) && 0 <= i
                    < self.lane@.session_clips.len() && *c == self.lane@.session_clips[i],
                None => ids::place(self.cells.known_clips(), clip_id) matches Some(i) ==> i
                    >= self.lane@.session_clips.len(),
            },
            self.valid() && r is None ==> ids::place(cells::lane_clip_ids(self.lane@.session_clips), clip_id) is None,
    {
        match self.cells.clip_pos(clip_id) {
            Some(i) => if i < self.lane.session_clips.len() {
                Some(&self.lane.session_clips[i])
            } else {
                None
            },
            None => None,
        }
    }

    /// The cells of the lane.
    pub fn session_cells(self) -> (r: SessionCells<'a>)
        ensures
            r == self.cells,
    {
        self.cells
    }
}

/// The routings of one target, in order.
#[derive(Clone, Copy)]
pub struct TargetRoutings<'a> {
    routings: Option<(&'a Vec<ModRouting>, &'a Vec<usize>)>,
}

impl<'a> TargetRoutings<'a> {
    #[verifier::type_invariant]
    spec fn inv(self) -> bool {
        self.routings matches Some(r) ==> forall|i: int| 0 <= i < r.1@.len() ==> (#[trigger] r.1@[i]) < r.0@.len()
    }

    /// The routings.
    pub closed spec fn view(self) -> Seq<ModRouting> {
        match self.routings {
            Some(r) => r.1@.map_values(|i: usize| r.0@[i as int]),
            None => Seq::empty(),
        }
    }

    /// Whether there are none.
    pub fn is_empty(self) -> (r: bool)
        ensures
            r == (self.view().len() == 0),
    {
        match self.routings {
            Some((_, members)) => members.len() == 0,
            None => true,
        }
    }

    /// The routings, in order.
    pub fn iter(self) -> (r: Vec<ModRouting>)
        ensures
            r@ == self.view(),
    {
        let mut r: Vec<ModRouting> = Vec::new();
        proof {
            use_type_invariant(&self);
        }
        if let Some((routings, members)) = self.routings {
            let mut i: usize = 0;
            while i < members.len()
                invariant
                    i <= members@.len(),
                    forall|k: int| 0 <= k < members@.len() ==> (#[trigger] members@[k]) < routings@.len(),
                    r@.len() == i,
                    forall|k: int| 0 <= k < i ==> #[trigger] r@[k] == routings@[members@[k] as int],
                decreases members@.len() - i,
            {
                r.push(routings[members[i]]);
                i += 1;
            }
        }
        assert(r@ =~= self.view());
        r
    }
}

/// The routings at places.
pub open spec fn routings_at(routings: Seq<ModRouting>, at: Seq<int>) -> Seq<ModRouting> {
    at.map_values(|i: int| routings[i])
}

/// The first of some places at which there is an enabled lane of a target, from the
/// `from`th on.
pub open spec fn enabled_among(lanes: Seq<LaneModel>, at: Seq<int>, target: AutomationTarget, from: int) -> Option<int>
    decreases at.len() - from,
{
    if from < 0 || from >= at.len() {
        None
    } else if lanes[at[from]].enabled && lanes[at[from]].target == target {
        Some(at[from])
    } else {
        enabled_among(lanes, at, target, from + 1)
    }
}

/// What is found of a subject: for each of its targets the routings at the places
/// where those of the target were when the index was made. The first of them says
/// which target they now have.
pub open spec fn found_for(known: Seq<ModRouting>, now: Seq<ModRouting>, subject: ParamSubject) -> Seq<
    (AutomationTarget, Seq<ModRouting>),
> {
    targets_for(known, subject).map_values(
        |t: AutomationTarget|
            (routings_at(now, routings_to(known, t))[0].target, routings_at(now, routings_to(known, t))),
    )
}

/// The routings found under a target, from the `from`th on; none if there are none.
pub open spec fn found_under(found: Seq<(AutomationTarget, Seq<ModRouting>)>, target: AutomationTarget, from: int) -> Seq<
    ModRouting,
>
    decreases found.len() - from,
{
    if from < 0 || from >= found.len() {
        Seq::empty()
    } else if found[from].0 == target {
        found[from].1
    } else {
        found_under(found, target, from + 1)
    }
}

/// Lanes and routings with their index.
#[derive(Clone, Copy)]
pub struct ParamStore<'a> {
    /// None if there is no store, or if the index is one of other numbers of lanes
    /// and routings.
    at: Option<(&'a Vec<AutomationLane>, &'a Vec<ModRouting>, &'a ParamStoreIndex)>,
}

impl<'a> ParamStore<'a> {
    #[verifier::type_invariant]
    spec fn inv(self) -> bool {
        self.at matches Some(s) ==> s.2.lanes().len() == s.0@.len() && s.2.routings().len() == s.1@.len()
    }

    /// The lanes that can be found.
    pub closed spec fn lanes(self) -> Seq<LaneModel> {
        match self.at {
            Some(s) => model::models(s.0@),
            None => Seq::empty(),
        }
    }

    /// The routings that can be found.
    pub closed spec fn routings(self) -> Seq<ModRouting> {
        match self.at {
            Some(s) => s.1@,
            None => Seq::empty(),
        }
    }

    /// The lanes as they were when the index was made.
    pub closed spec fn known_lanes(self) -> Seq<LaneModel> {
        match self.at {
            Some(s) => s.2.lanes(),
            None => Seq::empty(),
        }
    }

    /// The routings as they were when the index was made.
    pub closed spec fn known_routings(self) -> Seq<ModRouting> {
        match self.at {
            Some(s) => s.2.routings(),
            None => Seq::empty(),
        }
    }

    /// Whether the index is that of the lanes and routings.
    pub open spec fn current(self) -> bool {
        self.known_lanes() == self.lanes() && self.known_routings() == self.routings()
    }

    /// The store that there is for lanes and routings and an index that was made
    /// of these: one with nothing in it if there are more or fewer.
    pub open spec fn pairs(
        self,
        lanes: Seq<LaneModel>,
        routings: Seq<ModRouting>,
        known_lanes: Seq<LaneModel>,
        known_routings: Seq<ModRouting>,
    ) -> bool {
        if known_lanes.len() == lanes.len() && known_routings.len() == routings.len() {
            self.lanes() == lanes && self.routings() == routings && self.known_lanes() == known_lanes
                && self.known_routings() == known_routings
        } else {
            self.is_empty()
        }
    }

    /// Whether there is nothing in the store.
    pub open spec fn is_empty(self) -> bool {
        &&& self.lanes() == Seq::<LaneModel>::empty()
        &&& self.routings() == Seq::<ModRouting>::empty()
        &&& self.known_lanes() == Seq::<LaneModel>::empty()
        &&& self.known_routings() == Seq::<ModRouting>::empty()
    }

    /// A store with nothing in it.
    pub fn empty() -> (r: ParamStore<'a>)
        ensures
            r.is_empty(),
    {
        ParamStore { at: None }
    }

    /// Lanes and routings with their index. An index of other numbers of them is
    /// that of another song: nothing is found through it.
    pub fn new(
        lanes: &'a Vec<AutomationLane>,
        routings: &'a Vec<ModRouting>,
        index: &'a ParamStoreIndex,
    ) -> (r: ParamStore<'a>)
        ensures
            r.pairs(model::models(lanes@), routings@, index.lanes(), index.routings()),
    {
        if index.fits(lanes.len(), routings.len()) {
            ParamStore { at: Some((lanes, routings, index)) }
        } else {
            ParamStore { at: None }
        }
    }

    /// The lane at place `pos`.
    pub fn lane(self, pos: usize) -> (r: Option<LaneView<'a>>)
        ensures
            r is Some == (pos < self.lanes().len()),
            r matches Some(v) ==> v.pos == pos && v.lane@ == self.lanes()[pos as int] && v.indexed_as(
                self.known_lanes()[pos as int],
            ),
            self.current() ==> (r matches Some(v) ==> v.valid()),
    {
        proof {
            use_type_invariant(&self);
        }
        match self.at {
            Some((lanes, _, index)) => {
                if pos >= lanes.len() {
                    return None;
                }
                let lane = &lanes[pos];
                match index.lane_cells(pos) {
                    Some(cells) => {
                        let cells = SessionCells::new(CellSlice::Lane(&lane.session_clips), cells);
                        assert(self.lanes()[pos as int] == lane@);
                        Some(LaneView { pos, lane, cover: index.cover(pos), cells })
                    },
                    None => None,
                }
            },
            None => None,
        }
    }

    /// The lanes of a subject, in order.
    pub fn lanes_of(self, subject: ParamSubject) -> (r: Vec<LaneView<'a>>)
        ensures
            r@.len() == lanes_for(self.known_lanes(), subject).len(),
            forall|i: int|
                0 <= i < r@.len() ==> {
                    let at = lanes_for(self.known_lanes(), subject)[i];
                    &&& (#[trigger] r@[i]).pos == at
                    &&& 0 <= at < self.lanes().len()
                    &&& r@[i].lane@ == self.lanes()[at]
                    &&& r@[i].indexed_as(self.known_lanes()[at])
                    &&& self.current() ==> r@[i].valid()
                },
    {
        proof {
            use_type_invariant(&self);
        }
        let mut r: Vec<LaneView<'a>> = Vec::new();
        let ghost known = self.known_lanes();
        let ghost want = lanes_for(known, subject);
        if let Some((_, _, index)) = self.at {
            let found = index.find_lanes(subject);
            assert(numbers(found@) == want);
            assert(numbers(found@).len() == found@.len());
            let mut i: usize = 0;
            while i < found.len()
                invariant
                    known == self.known_lanes(),
                    numbers(found@) == want,
                    forall|k: int| 0 <= k < found@.len() ==> (#[trigger] found@[k]) < self.lanes().len(),
                    i <= found@.len(),
                    r@.len() == i,
                    forall|k: int|
                        0 <= k < i ==> {
                            &&& (#[trigger] r@[k]).pos == want[k]
                            &&& 0 <= want[k] < self.lanes().len()
                            &&& r@[k].lane@ == self.lanes()[want[k]]
                            &&& r@[k].indexed_as(known[want[k]])
                            &&& self.current() ==> r@[k].valid()
                        },
                decreases found@.len() - i,
            {
                assert(want[i as int] == found@[i as int] as int);
                if let Some(v) = self.lane(found[i]) {
                    r.push(v);
                }
                i += 1;
            }
        }
        r
    }

    /// The first enabled lane of a target.
    pub fn enabled_lane(self, target: &AutomationTarget) -> (r: Option<LaneView<'a>>)
        ensures
            enabled_among(self.lanes(), lanes_for(self.known_lanes(), subject_of(*target)), *target, 0) == match r {
                Some(v) => Some(v.pos as int),
                None => None,
            },
            r matches Some(v) ==> v.pos < self.lanes().len() && v.lane@ == self.lanes()[v.pos as int] && v.indexed_as(
                self.known_lanes()[v.pos as int],
            ),
            self.current() ==> enabled_from(self.lanes(), *target, 0) == match r {
                Some(v) => Some(v.pos as int),
                None => None,
            } && (r matches Some(v) ==> v.valid()),
    {
        let ghost lanes = self.lanes();
        let subject = ParamSubject::of(target);
        let found = self.lanes_of(subject);
        let ghost want = lanes_for(self.known_lanes(), subject);
        proof {
            if self.current() {
                lemma_enabled_among(lanes, *target);
            }
        }
        let mut i: usize = 0;
        while i < found.len()
            invariant
                lanes == self.lanes(),
                subject == subject_of(*target),
                want == lanes_for(self.known_lanes(), subject),
                found@.len() == want.len(),
                forall|k: int|
                    0 <= k < found@.len() ==> {
                        &&& (#[trigger] found@[k]).pos == want[k]
                        &&& 0 <= want[k] < lanes.len()
                        &&& found@[k].lane@ == lanes[want[k]]
                        &&& found@[k].indexed_as(self.known_lanes()[want[k]])
                        &&& self.current() ==> found@[k].valid()
                    },
                self.current() ==> enabled_from(lanes, *target, 0) == enabled_among(lanes, want, *target, 0),
                i <= found@.len(),
                enabled_among(lanes, want, *target, 0) == enabled_among(lanes, want, *target, i as int),
            decreases found@.len() - i,
        {
            let v = found[i];
            assert(found@[i as int].lane@ == lanes[want[i as int]]);
            if v.lane.enabled && v.lane.target == *target {
                return Some(v);
            }
            i += 1;
        }
        None
    }

    /// The lane with id `id`: the first, if several have it.
    pub fn lane_by_id(self, id: u32) -> (r: Option<LaneView<'a>>)
        ensures
            ids::place(track_ids::lane_ids(self.known_lanes()), id) == match r {
                Some(v) => Some(v.pos as int),
                None => None,
            },
            r matches Some(v) ==> v.pos < self.lanes().len() && v.lane@ == self.lanes()[v.pos as int] && v.indexed_as(
                self.known_lanes()[v.pos as int],
            ),
            self.current() ==> (r matches Some(v) ==> v.valid()),
    {
        proof {
            use_type_invariant(&self);
        }
        match self.at {
            Some((_, _, index)) => match index.find_id(id) {
                Some(i) => self.lane(i),
                None => None,
            },
            None => None,
        }
    }

    /// The targets of a subject, in the order in which they first come, each
    /// with its routings.
    pub fn targets_of(self, subject: ParamSubject) -> (r: Vec<(AutomationTarget, TargetRoutings<'a>)>)
        ensures
            r@.len() == targets_for(self.known_routings(), subject).len(),
            forall|i: int|
                0 <= i < r@.len() ==> ((#[trigger] r@[i]).0, r@[i].1.view()) == found_for(
                    self.known_routings(),
                    self.routings(),
                    subject,
                )[i],
            self.current() ==> forall|i: int|
                0 <= i < r@.len() ==> (#[trigger] r@[i]).0 == targets_for(self.routings(), subject)[i]
                    && r@[i].1.view() == routings_at(self.routings(), routings_to(self.routings(), r@[i].0)),
    {
        proof {
            use_type_invariant(&self);
        }
        let mut r: Vec<(AutomationTarget, TargetRoutings<'a>)> = Vec::new();
        let ghost known = self.known_routings();
        let ghost now = self.routings();
        let ghost want = targets_for(known, subject);
        let ghost found_all = found_for(known, now, subject);
        if let Some((_, routings, index)) = self.at {
            let found = index.find_groups(subject);
            let ghost at = positions::places(target_keys(targets(known)), subject_key(subject));
            assert(numbers(found@).len() == found@.len());
            let mut i: usize = 0;
            while i < found.len()
                invariant
                    routings@ == now,
                    now.len() == known.len(),
                    index.routings() == known,
                    numbers(found@) == at,
                    want == at.map_values(|i: int| targets(known)[i]),
                    want == targets_for(known, subject),
                    found_all == found_for(known, now, subject),
                    forall|k: int| 0 <= k < found@.len() ==> (#[trigger] found@[k]) < targets(known).len(),
                    i <= found@.len(),
                    r@.len() == i,
                    forall|k: int| 0 <= k < i ==> ((#[trigger] r@[k]).0, r@[k].1.view()) == found_all[k],
                decreases found@.len() - i,
            {
                let g: usize = found[i];
                assert(at[i as int] == g as int);
                let members = index.group_members(g);
                let ghost target = targets(known)[g as int];
                let ghost to = routings_to(known, target);
                proof {
                    lemma_routings_to(known, target);
                    assert(targets(known).contains(target));
                    assert(to.len() == members@.len());
                    assert forall|k: int| 0 <= k < members@.len() implies (#[trigger] members@[k]) < routings@.len() by {
                        assert(to[k] == members@[k] as int);
                    }
                }
                let of_target = TargetRoutings { routings: Some((routings, members)) };
                let first = routings[members[0]].target;
                proof {
                    assert forall|k: int| 0 <= k < to.len() implies #[trigger] of_target.view()[k] == routings_at(
                        now,
                        to,
                    )[k] by {
                        assert(to[k] == members@[k] as int);
                    }
                    assert(of_target.view() =~= routings_at(now, to));
                    assert(routings_at(now, to)[0].target == first);
                    assert(found_all[i as int] == (first, routings_at(now, to)));
                }
                r.push((first, of_target));
                i += 1;
            }
        } else {
            assert(targets(known) =~= Seq::<AutomationTarget>::empty());
            assert(want =~= Seq::<AutomationTarget>::empty());
        }
        proof {
            if self.current() {
                lemma_found_for(now, subject);
                assert forall|i: int| 0 <= i < r@.len() implies (#[trigger] r@[i]).0 == want[i] && r@[i].1.view()
                    == routings_at(now, routings_to(now, r@[i].0)) by {
                    assert(found_all[i].0 == want[i]);
                }
            }
        }
        r
    }

    /// The routings of a target, in order.
    pub fn routings_for(self, target: &AutomationTarget) -> (r: TargetRoutings<'a>)
        ensures
            r.view() == found_under(
                found_for(self.known_routings(), self.routings(), subject_of(*target)),
                *target,
                0,
            ),
            self.current() ==> r.view() == routings_at(self.routings(), routings_to(self.routings(), *target)),
    {
        let subject = ParamSubject::of(target);
        let found = self.targets_of(subject);
        let ghost all = found_for(self.known_routings(), self.routings(), subject);
        proof {
            if self.current() {
                lemma_found_under(self.routings(), *target);
            }
        }
        let mut i: usize = 0;
        while i < found.len()
            invariant
                subject == subject_of(*target),
                all == found_for(self.known_routings(), self.routings(), subject),
                found@.len() == all.len(),
                forall|k: int| 0 <= k < found@.len() ==> ((#[trigger] found@[k]).0, found@[k].1.view()) == all[k],
                self.current() ==> found_under(all, *target, 0) == routings_at(
                    self.routings(),
                    routings_to(self.routings(), *target),
                ),
                i <= found@.len(),
                found_under(all, *target, 0) == found_under(all, *target, i as int),
            decreases found@.len() - i,
        {
            assert((found@[i as int].0, found@[i as int].1.view()) == all[i as int]);
            if found[i].0 == *target {
                return found[i].1;
            }
            i += 1;
        }
        let none = TargetRoutings { routings: None };
        assert(none.view() =~= Seq::<ModRouting>::empty());
        none
    }
}

/// Of a store with its own index, what is found of a subject are its targets and
/// their routings.
proof fn lemma_found_for(routings: Seq<ModRouting>, subject: ParamSubject)
    ensures
        forall|i: int|
            0 <= i < targets_for(routings, subject).len() ==> (#[trigger] found_for(routings, routings, subject)[i]) == (
                targets_for(routings, subject)[i],
                routings_at(routings, routings_to(routings, targets_for(routings, subject)[i])),
            ),
{
    let all = targets(routings);
    let at = positions::places(target_keys(all), subject_key(subject));
    let want = targets_for(routings, subject);
    positions::lemma_places(target_keys(all), subject_key(subject));
    assert forall|i: int| 0 <= i < want.len() implies (#[trigger] found_for(routings, routings, subject)[i]) == (
        want[i],
        routings_at(routings, routings_to(routings, want[i])),
    ) by {
        assert(at.contains(at[i]));
        assert(all.contains(want[i]));
        lemma_routings_to(routings, want[i]);
        assert(0 <= routings_to(routings, want[i])[0] < routings.len());
    }
}

proof fn lemma_found_under_is(found: Seq<(AutomationTarget, Seq<ModRouting>)>, target: AutomationTarget, at: int, from: int)
    requires
        0 <= from <= at < found.len(),
        found[at].0 == target,
        forall|k: int| 0 <= k < at ==> (#[trigger] found[k]).0 != target,
    ensures
        found_under(found, target, from) == found[at].1,
    decreases at - from,
{
    if from < at {
        lemma_found_under_is(found, target, at, from + 1);
    }
}

proof fn lemma_found_under_none(found: Seq<(AutomationTarget, Seq<ModRouting>)>, target: AutomationTarget, from: int)
    requires
        0 <= from,
        forall|k: int| 0 <= k < found.len() ==> (#[trigger] found[k]).0 != target,
    ensures
        found_under(found, target, from) == Seq::<ModRouting>::empty(),
    decreases found.len() - from,
{
    if from < found.len() {
        lemma_found_under_none(found, target, from + 1);
    }
}

/// Of a store with its own index, what is found under a target are its routings.
proof fn lemma_found_under(routings: Seq<ModRouting>, target: AutomationTarget)
    ensures
        found_under(found_for(routings, routings, subject_of(target)), target, 0) == routings_at(
            routings,
            routings_to(routings, target),
        ),
{
    let subject = subject_of(target);
    let all = targets(routings);
    let at = positions::places(target_keys(all), subject_key(subject));
    let want = targets_for(routings, subject);
    let found = found_for(routings, routings, subject);
    lemma_found_for(routings, subject);
    lemma_routings_to(routings, target);
    lemma_targets_once(routings);
    positions::lemma_places(target_keys(all), subject_key(subject));
    if all.contains(target) {
        let k = choose|k: int| 0 <= k < all.len() && all[k] == target;
        assert(target_keys(all)[k] == subject_key(subject));
        assert(at.contains(k));
        let j = choose|j: int| 0 <= j < at.len() && at[j] == k;
        assert(want[j] == target);
        assert forall|i: int| 0 <= i < j implies (#[trigger] found[i]).0 != target by {
            assert(found[i].0 == want[i]);
            assert(at[i] < at[j]);
            assert(at.contains(at[i]));
        }
        assert(found[j].0 == target);
        lemma_found_under_is(found, target, j, 0);
    } else {
        assert forall|i: int| 0 <= i < found.len() implies (#[trigger] found[i]).0 != target by {
            assert(found[i].0 == want[i]);
            assert(at.contains(at[i]));
            assert(all.contains(want[i]));
        }
        lemma_found_under_none(found, target, 0);
        assert(routings_at(routings, routings_to(routings, target)) =~= Seq::<ModRouting>::empty());
    }
}

/// Of lanes with their own index, the first enabled one of a target is the first
/// among those of its subject.
proof fn lemma_enabled_among(lanes: Seq<LaneModel>, target: AutomationTarget)
    ensures
        enabled_from(lanes, target, 0) == enabled_among(lanes, lanes_for(lanes, subject_of(target)), target, 0),
{
    let subject = subject_of(target);
    let keys = lane_keys(lanes);
    let want = lanes_for(lanes, subject);
    positions::lemma_places(keys, subject_key(subject));
    lemma_among(lanes, want, target, 0);
    assert forall|k: int| 0 <= k < lanes.len() && (#[trigger] lanes[k]).target == target implies want.contains(k) by {
        assert(keys[k] == subject_key(subject));
    }
    match enabled_among(lanes, want, target, 0) {
        Some(at) => {
            let j = choose|j: int|
                0 <= j < want.len() && want[j] == at && forall|k: int|
                    0 <= k < j ==> !(lanes[#[trigger] want[k]].enabled && lanes[want[k]].target == target);
            assert(want.contains(at));
            assert forall|k: int| 0 <= k < at implies !((#[trigger] lanes[k]).enabled && lanes[k].target == target) by {
                if lanes[k].target == target {
                    let i = choose|i: int| 0 <= i < want.len() && want[i] == k;
                    if i > j {
                        assert(want[j] < want[i]);
                    }
                    assert(i < j);
                    assert(!(lanes[want[i]].enabled && lanes[want[i]].target == target));
                }
            }
            lemma_enabled_is(lanes, target, 0, at);
        },
        None => {
            assert forall|k: int| 0 <= k < lanes.len() implies !((#[trigger] lanes[k]).enabled && lanes[k].target
                == target) by {
                if lanes[k].target == target {
                    let i = choose|i: int| 0 <= i < want.len() && want[i] == k;
                    assert(!(lanes[want[i]].enabled && lanes[want[i]].target == target));
                }
            }
            lemma_enabled_none(lanes, target, 0);
        },
    }
}

/// What [`enabled_among`] finds is enabled, and nothing before it is.
proof fn lemma_among(lanes: Seq<LaneModel>, at: Seq<int>, target: AutomationTarget, from: int)
    requires
        0 <= from <= at.len(),
        forall|k: int| 0 <= k < from ==> !(lanes[#[trigger] at[k]].enabled && lanes[at[k]].target == target),
    ensures
        match enabled_among(lanes, at, target, from) {
            Some(p) => lanes[p].enabled && lanes[p].target == target && exists|j: int|
                0 <= j < at.len() && #[trigger] at[j] == p && forall|k: int|
                    0 <= k < j ==> !(lanes[#[trigger] at[k]].enabled && lanes[at[k]].target == target),
            None => forall|k: int|
                0 <= k < at.len() ==> !(lanes[#[trigger] at[k]].enabled && lanes[at[k]].target == target),
        },
    decreases at.len() - from,
{
    if from < at.len() && !(lanes[at[from]].enabled && lanes[at[from]].target == target) {
        lemma_among(lanes, at, target, from + 1);
    }
}

proof fn lemma_enabled_is(lanes: Seq<LaneModel>, target: AutomationTarget, from: int, at: int)
    requires
        0 <= from <= at < lanes.len(),
        lanes[at].enabled,
        lanes[at].target == target,
        forall|k: int| from <= k < at ==> !((#[trigger] lanes[k]).enabled && lanes[k].target == target),
    ensures
        enabled_from(lanes, target, from) == Some(at),
    decreases at - from,
{
    if from < at {
        lemma_enabled_is(lanes, target, from + 1, at);
    }
}

proof fn lemma_enabled_none(lanes: Seq<LaneModel>, target: AutomationTarget, from: int)
    requires
        0 <= from,
        forall|k: int| 0 <= k < lanes.len() ==> !((#[trigger] lanes[k]).enabled && lanes[k].target == target),
    ensures
        enabled_from(lanes, target, from) is None,
    decreases lanes.len() - from,
{
    if from < lanes.len() {
        lemma_enabled_none(lanes, target, from + 1);
    }
}

} // verus!
