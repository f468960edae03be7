//! Finding tracks, devices and chains by id.

use super::device;
use super::device::{ChainModel, Device, DeviceModel, NativeDevice, Parallel, ParallelChain, PluginInstance};
use super::song::{Song, SongModel};
use super::track::{Track, TrackModel};
use super::MASTER_TRACK_ID;
use crate::model;
use vstd::prelude::*;

verus! {

/// The place of the first track with id `id`, from place `from` on.
pub open spec fn track_place_from(tracks: Seq<TrackModel>, id: u32, from: int) -> Option<int>
    decreases tracks.len() - from,
{
    if from < 0 || from >= tracks.len() {
        None
    } else if tracks[from].id == id {
        Some(from)
    } else {
        track_place_from(tracks, id, from + 1)
    }
}

/// The place of the first track with id `id`.
pub open spec fn track_place(tracks: Seq<TrackModel>, id: u32) -> Option<int> {
    track_place_from(tracks, id, 0)
}

pub proof fn lemma_track_place_from(tracks: Seq<TrackModel>, id: u32, from: int)
    requires
        0 <= from,
    ensures
        match track_place_from(tracks, id, from) {
            Some(i) => from <= i < tracks.len() && tracks[i].id == id && forall|k: int|
                from <= k < i ==> (#[trigger] tracks[k]).id != id,
            None => forall|k: int| from <= k < tracks.len() ==> (#[trigger] tracks[k]).id != id,
        },
    decreases tracks.len() - from,
{
    if from < tracks.len() && tracks[from].id != id {
        lemma_track_place_from(tracks, id, from + 1);
    }
}

/// The place of the first track with id `id` is where the id is first met.
pub proof fn lemma_track_place(tracks: Seq<TrackModel>, id: u32)
    ensures
        match track_place(tracks, id) {
            Some(i) => 0 <= i < tracks.len() && tracks[i].id == id && forall|k: int|
                0 <= k < i ==> (#[trigger] tracks[k]).id != id,
            None => forall|k: int| 0 <= k < tracks.len() ==> (#[trigger] tracks[k]).id != id,
        },
{
    lemma_track_place_from(tracks, id, 0);
}

/// The device with id `id` inside `d`, itself first.
pub open spec fn device_find(d: DeviceModel, id: u64) -> Option<DeviceModel>
    decreases d,
{
    if d.id() == id {
        Some(d)
    } else {
        match d {
            DeviceModel::Parallel { id: _, chains } => chains_find(chains, id),
            _ => None,
        }
    }
}

/// The first device with id `id` inside the chains of a rack.
pub open spec fn chains_find(chains: Seq<ChainModel>, id: u64) -> Option<DeviceModel>
    decreases chains,
{
    if chains.len() == 0 {
        None
    } else {
        match list_find(chains[0].devices, id) {
            Some(d) => Some(d),
            None => chains_find(chains.drop_first(), id),
        }
    }
}

/// The first device with id `id` inside a chain, in signal order.
pub open spec fn list_find(devices: Seq<DeviceModel>, id: u64) -> Option<DeviceModel>
    decreases devices,
{
    if devices.len() == 0 {
        None
    } else {
        match device_find(devices[0], id) {
            Some(d) => Some(d),
            None => list_find(devices.drop_first(), id),
        }
    }
}

/// The first device with id `id` on the tracks from place `from` on.
pub open spec fn tracks_find(tracks: Seq<TrackModel>, id: u64, from: int) -> Option<(int, DeviceModel)>
    decreases tracks.len() - from,
{
    if from < 0 || from >= tracks.len() {
        None
    } else {
        match list_find(tracks[from].devices, id) {
            Some(d) => Some((from, d)),
            None => tracks_find(tracks, id, from + 1),
        }
    }
}

impl SongModel {
    /// The first device with id `id`: the tracks in order, then the master bus.
    pub open spec fn device(self, id: u64) -> Option<DeviceModel> {
        match tracks_find(self.tracks, id, 0) {
            Some(found) => Some(found.1),
            None => list_find(self.master_fx_chain, id),
        }
    }

    /// The id of the track that holds the first device with id `id`.
    pub open spec fn device_owner(self, id: u64) -> Option<u32> {
        match tracks_find(self.tracks, id, 0) {
            Some(found) => Some(self.tracks[found.0].id),
            None => if list_find(self.master_fx_chain, id) is Some {
                Some(MASTER_TRACK_ID)
            } else {
                None
            },
        }
    }
}

/// The first device with id `id` inside `d`.
pub fn device_in<'a>(d: &'a Device, id: u64) -> (r: Option<&'a Device>)
    ensures
        match r {
            Some(e) => device_find(d@, id) == Some(e@),
            None => device_find(d@, id) is None,
        },
    decreases *d,
{
    if d.id() == id {
        return Some(d);
    }
    match d {
        Device::Parallel(p) => {
            let ghost cm = device::chain_models(p.chains@);
            assert(d@ == (DeviceModel::Parallel { id: p.id, chains: cm }));
            let mut j: usize = 0;
            assert(cm.skip(0) =~= cm);
            assert(device_find(d@, id) == chains_find(cm, id));
            while j < p.chains.len()
                invariant
                    *d == Device::Parallel(*p),
                    cm == device::chain_models(p.chains@),
                    j <= p.chains@.len(),
                    device_find(d@, id) == chains_find(cm.skip(j as int), id),
                decreases p.chains@.len() - j,
            {
                let c = &p.chains[j];
                proof {
                    assert(decreases_to!(*d => d->Parallel_0));
                    assert(decreases_to!(d->Parallel_0 => d->Parallel_0.chains));
                    assert(decreases_to!(p.chains => p.chains@));
                    assert(decreases_to!(p.chains@ => p.chains@[j as int]));
                    assert(decreases_to!(p.chains@[j as int] => c.devices));
                    assert(decreases_to!(c.devices => c.devices@));
                    assert(cm.skip(j as int)[0] == device::chain_model(*c));
                    assert(cm.skip(j as int).drop_first() =~= cm.skip(j + 1));
                }
                let found = find_in(&c.devices, id);
                if found.is_some() {
                    return found;
                }
                j += 1;
            }
            None
        },
        Device::Plugin(p) => {
            assert(d@ == DeviceModel::Plugin(p@));
            None
        },
        Device::Native(n) => {
            assert(d@ == DeviceModel::Native(*n));
            None
        },
    }
}

/// The first device with id `id` inside a chain.
pub fn find_in<'a>(devices: &'a Vec<Device>, id: u64) -> (r: Option<&'a Device>)
    ensures
        match r {
            Some(e) => list_find(device::device_models(devices@), id) == Some(e@),
            None => list_find(device::device_models(devices@), id) is None,
        },
    decreases devices@,
{
    let ghost dm = device::device_models(devices@);
    let mut i: usize = 0;
    assert(dm.skip(0) =~= dm);
    while i < devices.len()
        invariant
            dm == device::device_models(devices@),
            i <= devices@.len(),
            list_find(dm, id) == list_find(dm.skip(i as int), id),
        decreases devices@.len() - i,
    {
        proof {
            assert(decreases_to!(devices@ => devices@[i as int]));
            assert(dm.skip(i as int)[0] == device::device_model(devices@[i as int]));
            assert(dm.skip(i as int).drop_first() =~= dm.skip(i + 1));
        }
        let found = device_in(&devices[i], id);
        if found.is_some() {
            return found;
        }
        i += 1;
    }
    None
}

impl Song {
    /// The first track with id `track_id`.
    pub fn track_by_id(&self, track_id: u32) -> (r: Option<&Track>)
        ensures
            match r {
                Some(t) => track_place(self@.tracks, track_id) is Some && t@ == self@.tracks[track_place(
                    self@.tracks,
                    track_id,
                )->0],
                None => track_place(self@.tracks, track_id) is None,
            },
    {
        match self.track_index(track_id) {
            Some(i) => Some(&self.tracks[i]),
            None => None,
        }
    }

    /// The place of the first track with id `track_id`.
    pub fn track_index(&self, track_id: u32) -> (r: Option<usize>)
        ensures
            match r {
                Some(i) => i < self.tracks@.len() && track_place(self@.tracks, track_id) == Some(i as int),
                None => track_place(self@.tracks, track_id) is None,
            },
    {
        let ghost tm = self@.tracks;
        let mut i: usize = 0;
        while i < self.tracks.len()
            invariant
                tm == self@.tracks,
                i <= self.tracks@.len(),
                track_place(tm, track_id) == track_place_from(tm, track_id, i as int),
            decreases self.tracks@.len() - i,
        {
            assert(tm[i as int] == self.tracks@[i as int]@);
            if self.tracks[i].id == track_id {
                return Some(i);
            }
            i += 1;
        }
        None
    }

    /// The place of the track whose chain holds the first device with id `id`,
    /// and that device.
    fn device_on_track(&self, id: u64) -> (r: Option<(usize, &Device)>)
        ensures
            match r {
                Some(found) => found.0 < self.tracks@.len() && tracks_find(self@.tracks, id, 0) == Some(
                    (found.0 as int, found.1@),
                ),
                None => tracks_find(self@.tracks, id, 0) is None,
            },
    {
        let ghost tm = self@.tracks;
        let mut i: usize = 0;
        while i < self.tracks.len()
            invariant
                tm == self@.tracks,
                i <= self.tracks@.len(),
                tracks_find(tm, id, 0) == tracks_find(tm, id, i as int),
            decreases self.tracks@.len() - i,
        {
            assert(tm[i as int] == self.tracks@[i as int]@);
            if let Some(d) = find_in(&self.tracks[i].devices, id) {
                return Some((i, d));
            }
            i += 1;
        }
        None
    }

    /// The first device with id `id`: the tracks in order, then the master bus.
    pub fn device_by_id(&self, id: u64) -> (r: Option<&Device>)
        ensures
            match r {
                Some(d) => self@.device(id) == Some(d@),
                None => self@.device(id) is None,
            },
    {
        match self.device_on_track(id) {
            Some(found) => Some(found.1),
            None => find_in(&self.master_fx_chain, id),
        }
    }

    /// The id of the track that holds the device `id`, or the id of the master
    /// bus.
    pub fn device_owner_track(&self, id: u64) -> (r: Option<u32>)
        ensures
            r == self@.device_owner(id),
    {
        match self.device_on_track(id) {
            Some(found) => {
                assert(self@.tracks[found.0 as int] == self.tracks@[found.0 as int]@);
                Some(self.tracks[found.0].id)
            },
            None => if find_in(&self.master_fx_chain, id).is_some() {
                Some(MASTER_TRACK_ID)
            } else {
                None
            },
        }
    }

    /// The plugin with id `id`, if the first device with that id is one.
    pub fn plugin_by_id(&self, id: u64) -> (r: Option<&PluginInstance>)
        ensures
            match r {
                Some(p) => self@.device(id) == Some(DeviceModel::Plugin(p@)),
                None => !(self@.device(id) matches Some(DeviceModel::Plugin(_))),
            },
    {
        match self.device_by_id(id) {
            Some(Device::Plugin(p)) => Some(p),
            _ => None,
        }
    }

    /// The native device with id `id`, if the first device with that id is one.
    pub fn native_by_id(&self, id: u64) -> (r: Option<&NativeDevice>)
        ensures
            match r {
                Some(n) => self@.device(id) == Some(DeviceModel::Native(*n)),
                None => !(self@.device(id) matches Some(DeviceModel::Native(_))),
            },
    {
        match self.device_by_id(id) {
            Some(Device::Native(n)) => Some(n),
            _ => None,
        }
    }

    /// The rack with id `id`, if the first device with that id is one.
    pub fn parallel_by_id(&self, id: u64) -> (r: Option<&Parallel>)
        ensures
            match r {
                Some(p) => self@.device(id) == Some(
                    (DeviceModel::Parallel { id: p.id, chains: device::chain_models(p.chains@) }),
                ),
                None => !(self@.device(id) matches Some(DeviceModel::Parallel { id: _, chains: _ })),
            },
    {
        match self.device_by_id(id) {
            Some(Device::Parallel(p)) => Some(p),
            _ => None,
        }
    }
}

} // verus!
