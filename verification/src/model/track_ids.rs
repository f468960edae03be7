//! What a track finds and hands out by id, and what it tells of its devices.

use super::automation::{AutomationClip, AutomationLane, LaneModel};
use super::clip::Clip;
use super::device;
use super::device::{Device, DeviceModel, PluginInstance, PluginModel};
use super::ids;
use super::ids::{ensure_one, hand_out};
use super::track::{Send, Track, TrackModel};
use crate::model;
use crate::plugin_db;
use crate::plugin_format::PluginFormat;
use crate::text::same_text;
use vstd::prelude::*;
use vstd::string::*;

verus! {

/// The ids of clips.
pub open spec fn clip_ids(clips: Seq<Clip>) -> Seq<u32> {
    clips.map_values(|c: Clip| c.id)
}

/// The ids of the clips of a lane.
pub open spec fn lane_clip_ids(clips: Seq<AutomationClip>) -> Seq<u32> {
    clips.map_values(|c: AutomationClip| c.id)
}

/// The ids of lanes.
pub open spec fn lane_ids(lanes: Seq<LaneModel>) -> Seq<u32> {
    lanes.map_values(|l: LaneModel| l.id)
}

/// The ids of sends.
pub open spec fn send_ids(sends: Seq<Send>) -> Seq<u32> {
    sends.map_values(|s: Send| s.id)
}

/// Whether a device is the built-in plugin with id `id`.
pub open spec fn is_builtin_plugin(d: DeviceModel, id: Seq<char>) -> bool {
    d matches DeviceModel::Plugin(p) && p.format == PluginFormat::Builtin && p.plugin_id == id
}

/// Whether one of the devices is the built-in plugin with id `id`.
pub open spec fn has_builtin_plugin(devices: Seq<DeviceModel>, id: Seq<char>) -> bool {
    exists|i: int| 0 <= i < devices.len() && #[trigger] is_builtin_plugin(devices[i], id)
}

/// Whether a device feeds a track from one of its parallel outputs.
pub open spec fn feeds_a_track(d: DeviceModel) -> bool {
    d matches DeviceModel::Plugin(p) && exists|i: int|
        0 <= i < p.aux_outputs.len() && (#[trigger] p.aux_outputs[i]) is Some
}

/// Whether a device feeds a track from its first output.
pub open spec fn feeds_main(d: DeviceModel) -> bool {
    d matches DeviceModel::Plugin(p) && p.aux_outputs.len() > 0 && p.aux_outputs[0] is Some
}

/// One past the last device that feeds a track from a parallel output.
pub open spec fn split_place(devices: Seq<DeviceModel>) -> Option<int>
    decreases devices.len(),
{
    if devices.len() == 0 {
        None
    } else if feeds_a_track(devices.last()) {
        Some(devices.len() as int)
    } else {
        split_place(devices.drop_last())
    }
}

/// Whether one of the devices is the built-in plugin with id `id`.
fn find_builtin_plugin(devices: &Vec<Device>, id: &str) -> (r: bool)
    ensures
        r == has_builtin_plugin(device::device_models(devices@), id@),
{
    let ghost all = device::device_models(devices@);
    let mut i: usize = 0;
    while i < devices.len()
        invariant
            all == device::device_models(devices@),
            i <= devices@.len(),
            forall|k: int| 0 <= k < i ==> !#[trigger] is_builtin_plugin(all[k], id@),
        decreases devices@.len() - i,
    {
        assert(all[i as int] == device::device_model(devices@[i as int]));
        if let Device::Plugin(p) = &devices[i] {
            if p.format == PluginFormat::Builtin && same_text(p.plugin_id.as_str(), id) {
                assert(is_builtin_plugin(all[i as int], id@));
                return true;
            }
        }
        i += 1;
    }
    false
}

/// Whether one of the outputs feeds a track.
fn any_output(outputs: &Vec<Option<u32>>) -> (r: bool)
    ensures
        r == exists|i: int| 0 <= i < outputs@.len() && (#[trigger] outputs@[i]) is Some,
{
    let mut i: usize = 0;
    while i < outputs.len()
        invariant
            i <= outputs@.len(),
            forall|k: int| 0 <= k < i ==> (#[trigger] outputs@[k]) is None,
        decreases outputs@.len() - i,
    {
        if outputs[i].is_some() {
            return true;
        }
        i += 1;
    }
    false
}

/// The model of a lane after its clip ids were made sure of.
pub open spec fn lane_ensured(lane: LaneModel) -> LaneModel {
    let now = ids::ids_after(lane_clip_ids(lane.clips), lane.next_clip_id);
    LaneModel {
        clips: Seq::new(lane.clips.len(), |i: int| AutomationClip { id: now[i], ..lane.clips[i] }),
        next_clip_id: ids::counter_after(lane_clip_ids(lane.clips), lane.next_clip_id),
        ..lane
    }
}

/// Whether the clip ids of a lane fit.
pub open spec fn lane_fits(lane: LaneModel) -> bool {
    ids::ids_fit(lane_clip_ids(lane.clips), lane.next_clip_id)
}

impl AutomationLane {
    /// Assigns an id to every clip that has none, and lifts the counter above
    /// every id.
    pub fn ensure_clip_ids(&mut self)
        requires
            lane_fits(old(self)@),
        ensures
            final(self)@ == lane_ensured(old(self)@),
    {
        let ghost start = self@;
        let ghost all = lane_clip_ids(start.clips);
        let ghost first = self.next_clip_id;
        let mut i: usize = 0;
        assert(all.take(0) =~= Seq::<u32>::empty());
        while i < self.clips.len()
            invariant
                self.clips@.len() == start.clips.len(),
                all == lane_clip_ids(start.clips),
                ids::ids_fit(all, first),
                i <= self.clips@.len(),
                self@ == (LaneModel { clips: self.clips@, next_clip_id: self.next_clip_id, ..start }),
                self.next_clip_id == ids::all_ensured(all.take(i as int), first as int).1,
                forall|k: int| i <= k < start.clips.len() ==> #[trigger] self.clips@[k] == start.clips[k],
                forall|k: int|
                    0 <= k < i ==> #[trigger] self.clips@[k] == (AutomationClip {
                        id: ids::all_ensured(all, first as int).0[k] as u32,
                        ..start.clips[k]
                    }),
            decreases self.clips@.len() - i,
        {
            proof {
                assert(all.take(i + 1).drop_last() =~= all.take(i as int));
                assert(all[i as int] == start.clips[i as int].id);
                ids::lemma_counter_grows(all, first as int, i + 1);
                ids::lemma_all_ensured(all.take(i + 1), first as int);
                assert(all_at(all, first as int, i + 1, i as int));
            }
            let (id, next) = ensure_one(self.clips[i].id, self.next_clip_id);
            let mut clip = self.clips[i];
            clip.id = id;
            self.clips.set(i, clip);
            self.next_clip_id = next;
            i += 1;
        }
        assert(all.take(i as int) =~= all);
        if self.next_clip_id == 0 {
            self.next_clip_id = 1;
        }
        assert(self@.clips =~= lane_ensured(start).clips);
    }
}

/// A part and the whole agree on an id.
spec fn all_at(all: Seq<u32>, first: int, upto: int, k: int) -> bool {
    ids::all_ensured(all.take(upto), first).0[k] == ids::all_ensured(all, first).0[k]
}

impl TrackModel {
    /// The track after its clip ids were made sure of.
    pub open spec fn clips_ensured(self) -> TrackModel {
        let now = ids::ids_after(clip_ids(self.clips), self.next_clip_id);
        TrackModel {
            clips: Seq::new(self.clips.len(), |i: int| Clip { id: now[i], ..self.clips[i] }),
            next_clip_id: ids::counter_after(clip_ids(self.clips), self.next_clip_id),
            ..self
        }
    }

    /// The track after the ids of its lanes, and of their clips, were made sure
    /// of.
    pub open spec fn lanes_ensured(self) -> TrackModel {
        let now = ids::ids_after(lane_ids(self.automation_lanes), self.next_lane_id);
        TrackModel {
            automation_lanes: Seq::new(
                self.automation_lanes.len(),
                |i: int| LaneModel { id: now[i], ..lane_ensured(self.automation_lanes[i]) },
            ),
            next_lane_id: ids::counter_after(lane_ids(self.automation_lanes), self.next_lane_id),
            ..self
        }
    }

    /// The track after its send ids were made sure of.
    pub open spec fn sends_ensured(self) -> TrackModel {
        let now = ids::ids_after(send_ids(self.sends), self.next_send_id);
        TrackModel {
            sends: Seq::new(self.sends.len(), |i: int| Send { id: now[i], ..self.sends[i] }),
            next_send_id: ids::counter_after(send_ids(self.sends), self.next_send_id),
            ..self
        }
    }
}

impl Track {
    /// Whether the track sings: it has the built-in singer among its devices.
    pub fn is_voicevox_vocal(&self) -> (r: bool)
        ensures
            r == has_builtin_plugin(self@.devices, plugin_db::BUILTIN_ID_VOICEVOX@),
    {
        find_builtin_plugin(&self.devices, plugin_db::BUILTIN_ID_VOICEVOX)
    }

    /// Whether the track shows its texts: it has the built-in subtitle device.
    pub fn has_subtitle_device(&self) -> (r: bool)
        ensures
            r == has_builtin_plugin(self@.devices, plugin_db::SUBTITLE_ID@),
    {
        find_builtin_plugin(&self.devices, plugin_db::SUBTITLE_ID)
    }

    /// Where the device chain splits: one past the last device that feeds a
    /// track from a parallel output. The devices before it run first, those
    /// behind it on the sum. None if no device does.
    pub fn paraout_split_device(&self) -> (r: Option<u32>)
        requires
            self@.devices.len() <= u32::MAX,
        ensures
            match r {
                Some(k) => split_place(self@.devices) == Some(k as int),
                None => split_place(self@.devices) is None,
            },
    {
        let ghost all = self@.devices;
        let mut i: usize = self.devices.len();
        assert(all.take(i as int) =~= all);
        while i > 0
            invariant
                all == device::device_models(self.devices@),
                all.len() <= u32::MAX,
                i <= self.devices@.len(),
                split_place(all) == split_place(all.take(i as int)),
            decreases i,
        {
            let ghost upto = all.take(i as int);
            proof {
                assert(upto.drop_last() =~= all.take(i - 1));
                assert(upto.last() == all[i - 1]);
                assert(all[i - 1] == device::device_model(self.devices@[i - 1]));
            }
            if let Device::Plugin(p) = &self.devices[i - 1] {
                if any_output(&p.aux_outputs) {
                    return Some(i as u32);
                }
            }
            i -= 1;
        }
        None
    }

    /// Whether the main output of a device feeds a track of its own.
    pub fn paraout_main_to_child(&self) -> (r: bool)
        ensures
            r == exists|i: int| 0 <= i < self@.devices.len() && #[trigger] feeds_main(self@.devices[i]),
    {
        let ghost all = self@.devices;
        let mut i: usize = 0;
        while i < self.devices.len()
            invariant
                all == device::device_models(self.devices@),
                all == self@.devices,
                i <= self.devices@.len(),
                forall|k: int| 0 <= k < i ==> !#[trigger] feeds_main(all[k]),
            decreases self.devices@.len() - i,
        {
            assert(all[i as int] == device::device_model(self.devices@[i as int]));
            if let Device::Plugin(p) = &self.devices[i] {
                if p.aux_outputs.len() > 0 && p.aux_outputs[0].is_some() {
                    assert(feeds_main(all[i as int]));
                    return true;
                }
            }
            i += 1;
        }
        false
    }

    /// Hands out a new clip id.
    pub fn alloc_clip_id(&mut self) -> (r: u32)
        ensures
            r == ids::fresh(old(self).next_clip_id),
            final(self)@ == (TrackModel { next_clip_id: ids::after(r), ..old(self)@ }),
    {
        let (id, next) = hand_out(self.next_clip_id);
        self.next_clip_id = next;
        id
    }

    /// Assigns an id to every clip that has none, and lifts the counter above
    /// every id.
    pub fn ensure_clip_ids(&mut self)
        requires
            ids::ids_fit(clip_ids(old(self).clips@), old(self).next_clip_id),
        ensures
            final(self)@ == old(self)@.clips_ensured(),
    {
        let ghost start = self@;
        let ghost all = clip_ids(start.clips);
        let ghost first = self.next_clip_id;
        let mut i: usize = 0;
        assert(all.take(0) =~= Seq::<u32>::empty());
        while i < self.clips.len()
            invariant
                self.clips@.len() == start.clips.len(),
                all == clip_ids(start.clips),
                ids::ids_fit(all, first),
                i <= self.clips@.len(),
                self@ == (TrackModel { clips: self.clips@, next_clip_id: self.next_clip_id, ..start }),
                self.next_clip_id == ids::all_ensured(all.take(i as int), first as int).1,
                forall|k: int| i <= k < start.clips.len() ==> #[trigger] self.clips@[k] == start.clips[k],
                forall|k: int|
                    0 <= k < i ==> #[trigger] self.clips@[k] == (Clip {
                        id: ids::all_ensured(all, first as int).0[k] as u32,
                        ..start.clips[k]
                    }),
            decreases self.clips@.len() - i,
        {
            proof {
                assert(all.take(i + 1).drop_last() =~= all.take(i as int));
                assert(all[i as int] == start.clips[i as int].id);
                ids::lemma_counter_grows(all, first as int, i + 1);
                ids::lemma_all_ensured(all.take(i + 1), first as int);
                assert(all_at(all, first as int, i + 1, i as int));
            }
            let (id, next) = ensure_one(self.clips[i].id, self.next_clip_id);
            let mut clip = self.clips[i];
            clip.id = id;
            self.clips.set(i, clip);
            self.next_clip_id = next;
            i += 1;
        }
        assert(all.take(i as int) =~= all);
        if self.next_clip_id == 0 {
            self.next_clip_id = 1;
        }
        assert(self@.clips =~= start.clips_ensured().clips);
    }

    /// The place of the clip with id `clip_id`.
    pub fn clip_index_by_id(&self, clip_id: u32) -> (r: Option<usize>)
        ensures
            match r {
                Some(i) => i < self.clips@.len() && ids::place(clip_ids(self@.clips), clip_id) == Some(i as int),
                None => ids::place(clip_ids(self@.clips), clip_id) is None,
            },
    {
        let ghost all = clip_ids(self@.clips);
        let mut i: usize = 0;
        while i < self.clips.len()
            invariant
                all == clip_ids(self.clips@),
                i <= self.clips@.len(),
                ids::place(all, clip_id) == ids::place_from(all, clip_id, i as int),
            decreases self.clips@.len() - i,
        {
            assert(all[i as int] == self.clips@[i as int].id);
            if self.clips[i].id == clip_id {
                return Some(i);
            }
            i += 1;
        }
        None
    }

    /// The clip with id `clip_id`.
    pub fn clip_by_id(&self, clip_id: u32) -> (r: Option<&Clip>)
        ensures
            match r {
                Some(c) => ids::place(clip_ids(self@.clips), clip_id) matches Some(i) && *c == self@.clips[i],
                None => ids::place(clip_ids(self@.clips), clip_id) is None,
            },
    {
        match self.clip_index_by_id(clip_id) {
            Some(i) => Some(&self.clips[i]),
            None => None,
        }
    }

    /// The clip with id `clip_id`, to change it.
    pub fn clip_by_id_mut(&mut self, clip_id: u32) -> (r: Option<&mut Clip>)
        ensures
            match r {
                Some(c) => ids::place(clip_ids(old(self)@.clips), clip_id) matches Some(i) && *c == old(
                    self,
                )@.clips[i] && final(self)@ == (TrackModel {
                    clips: old(self)@.clips.update(i, *final(c)),
                    ..old(self)@
                }),
                None => ids::place(clip_ids(old(self)@.clips), clip_id) is None && *final(self) == *old(self),
            },
    {
        match self.clip_index_by_id(clip_id) {
            Some(i) => Some(&mut self.clips[i]),
            None => None,
        }
    }

    /// Hands out a new lane id.
    pub fn alloc_lane_id(&mut self) -> (r: u32)
        ensures
            r == ids::fresh(old(self).next_lane_id),
            final(self)@ == (TrackModel { next_lane_id: ids::after(r), ..old(self)@ }),
    {
        let (id, next) = hand_out(self.next_lane_id);
        self.next_lane_id = next;
        id
    }

    /// Assigns an id to every lane and every clip of a lane that has none, and
    /// lifts the counters above every id.
    pub fn ensure_lane_ids(&mut self)
        requires
            ids::ids_fit(lane_ids(old(self)@.automation_lanes), old(self).next_lane_id),
            forall|i: int|
                0 <= i < old(self)@.automation_lanes.len() ==> lane_fits(#[trigger] old(self)@.automation_lanes[i]),
        ensures
            final(self)@ == old(self)@.lanes_ensured(),
    {
        let ghost start = self@;
        let ghost lanes = start.automation_lanes;
        let ghost all = lane_ids(lanes);
        let ghost first = self.next_lane_id;
        let mut i: usize = 0;
        assert(all.take(0) =~= Seq::<u32>::empty());
        while i < self.automation_lanes.len()
            invariant
                self.automation_lanes@.len() == lanes.len(),
                lanes == start.automation_lanes,
                all == lane_ids(lanes),
                ids::ids_fit(all, first),
                forall|k: int| 0 <= k < lanes.len() ==> lane_fits(#[trigger] lanes[k]),
                i <= self.automation_lanes@.len(),
                self@ == (TrackModel {
                    automation_lanes: model::models(self.automation_lanes@),
                    next_lane_id: self.next_lane_id,
                    ..start
                }),
                self.next_lane_id == ids::all_ensured(all.take(i as int), first as int).1,
                forall|k: int| i <= k < lanes.len() ==> (#[trigger] self.automation_lanes@[k])@ == lanes[k],
                forall|k: int|
                    0 <= k < i ==> (#[trigger] self.automation_lanes@[k])@ == (LaneModel {
                        id: ids::all_ensured(all, first as int).0[k] as u32,
                        ..lane_ensured(lanes[k])
                    }),
            decreases self.automation_lanes@.len() - i,
        {
            proof {
                assert(all.take(i + 1).drop_last() =~= all.take(i as int));
                assert(self.automation_lanes@[i as int]@ == lanes[i as int]);
                assert(all[i as int] == lanes[i as int].id);
                ids::lemma_counter_grows(all, first as int, i + 1);
                ids::lemma_all_ensured(all.take(i + 1), first as int);
                assert(all_at(all, first as int, i + 1, i as int));
            }
            let (id, next) = ensure_one(self.automation_lanes[i].id, self.next_lane_id);
            let lane = &mut self.automation_lanes[i];
            lane.id = id;
            assert(lane@ == (LaneModel { id, ..lanes[i as int] }));
            assert(lane_fits(lane@));
            lane.ensure_clip_ids();
            self.next_lane_id = next;
            i += 1;
        }
        assert(all.take(i as int) =~= all);
        if self.next_lane_id == 0 {
            self.next_lane_id = 1;
        }
        assert(self@.automation_lanes =~= start.lanes_ensured().automation_lanes);
    }

    /// The place of the lane with id `lane_id`.
    pub fn lane_index_by_id(&self, lane_id: u32) -> (r: Option<usize>)
        ensures
            match r {
                Some(i) => i < self.automation_lanes@.len() && ids::place(lane_ids(self@.automation_lanes), lane_id)
                    == Some(i as int),
                None => ids::place(lane_ids(self@.automation_lanes), lane_id) is None,
            },
    {
        let ghost all = lane_ids(self@.automation_lanes);
        let mut i: usize = 0;
        while i < self.automation_lanes.len()
            invariant
                all == lane_ids(self@.automation_lanes),
                i <= self.automation_lanes@.len(),
                ids::place(all, lane_id) == ids::place_from(all, lane_id, i as int),
            decreases self.automation_lanes@.len() - i,
        {
            assert(all[i as int] == self.automation_lanes@[i as int].id);
            if self.automation_lanes[i].id == lane_id {
                return Some(i);
            }
            i += 1;
        }
        None
    }

    /// The lane with id `lane_id`.
    pub fn lane_by_id(&self, lane_id: u32) -> (r: Option<&AutomationLane>)
        ensures
            match r {
                Some(l) => ids::place(lane_ids(self@.automation_lanes), lane_id) matches Some(i) && l@
                    == self@.automation_lanes[i],
                None => ids::place(lane_ids(self@.automation_lanes), lane_id) is None,
            },
    {
        match self.lane_index_by_id(lane_id) {
            Some(i) => Some(&self.automation_lanes[i]),
            None => None,
        }
    }

    /// The lane with id `lane_id`, to change it.
    pub fn lane_by_id_mut(&mut self, lane_id: u32) -> (r: Option<&mut AutomationLane>)
        ensures
            match r {
                Some(l) => ids::place(lane_ids(old(self)@.automation_lanes), lane_id) matches Some(i) && l@ == old(
                    self,
                )@.automation_lanes[i] && final(self)@ == (TrackModel {
                    automation_lanes: old(self)@.automation_lanes.update(i, final(l)@),
                    ..old(self)@
                }),
                None => ids::place(lane_ids(old(self)@.automation_lanes), lane_id) is None && *final(self) == *old(
                    self,
                ),
            },
    {
        match self.lane_index_by_id(lane_id) {
            Some(i) => Some(&mut self.automation_lanes[i]),
            None => None,
        }
    }

    /// Assigns an id to every send that has none, and lifts the counter above
    /// every id.
    pub fn ensure_send_ids(&mut self)
        requires
            ids::ids_fit(send_ids(old(self).sends@), old(self).next_send_id),
        ensures
            final(self)@ == old(self)@.sends_ensured(),
    {
        let ghost start = self@;
        let ghost all = send_ids(start.sends);
        let ghost first = self.next_send_id;
        let mut i: usize = 0;
        assert(all.take(0) =~= Seq::<u32>::empty());
        while i < self.sends.len()
            invariant
                self.sends@.len() == start.sends.len(),
                all == send_ids(start.sends),
                ids::ids_fit(all, first),
                i <= self.sends@.len(),
                self@ == (TrackModel { sends: self.sends@, next_send_id: self.next_send_id, ..start }),
                self.next_send_id == ids::all_ensured(all.take(i as int), first as int).1,
                forall|k: int| i <= k < start.sends.len() ==> #[trigger] self.sends@[k] == start.sends[k],
                forall|k: int|
                    0 <= k < i ==> #[trigger] self.sends@[k] == (Send {
                        id: ids::all_ensured(all, first as int).0[k] as u32,
                        ..start.sends[k]
                    }),
            decreases self.sends@.len() - i,
        {
            proof {
                assert(all.take(i + 1).drop_last() =~= all.take(i as int));
                assert(all[i as int] == start.sends[i as int].id);
                ids::lemma_counter_grows(all, first as int, i + 1);
                ids::lemma_all_ensured(all.take(i + 1), first as int);
                assert(all_at(all, first as int, i + 1, i as int));
            }
            let (id, next) = ensure_one(self.sends[i].id, self.next_send_id);
            let mut send = self.sends[i];
            send.id = id;
            self.sends.set(i, send);
            self.next_send_id = next;
            i += 1;
        }
        assert(all.take(i as int) =~= all);
        if self.next_send_id == 0 {
            self.next_send_id = 1;
        }
        assert(self@.sends =~= start.sends_ensured().sends);
    }

    /// Hands out a new send id.
    pub fn alloc_send_id(&mut self) -> (r: u32)
        ensures
            r == ids::fresh(old(self).next_send_id),
            final(self)@ == (TrackModel { next_send_id: ids::after(r), ..old(self)@ }),
    {
        let (id, next) = hand_out(self.next_send_id);
        self.next_send_id = next;
        id
    }
}

} // verus!
