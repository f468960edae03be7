//! The devices that read a side chain, in signal order.

use crate::model::{
    AutomationLane, AutomationTarget, AuxInputRoute, ChainModel, Device, DeviceModel, LaneModel, ModRouting,
    NativeDevice, NativeParamId, ParallelChain,
};
use crate::model;
use crate::model::device;
use vstd::prelude::*;

verus! {

/// A device that reads a side chain.
#[derive(Debug)]
pub struct AuxConsumer {
    pub device_id: u64,
    /// Not processed: a bypassed plugin, or a native device that nothing can
    /// switch on.
    pub inactive: bool,
    /// Has both audio input and output.
    pub audio_io: bool,
    /// The wiring of each port.
    pub routes: Vec<Option<AuxInputRoute>>,
    pub native: bool,
    /// The place of the top-level device that holds this one.
    pub top_index: u32,
}

/// The model of a consumer.
#[verifier::ext_equal]
pub struct ConsumerModel {
    pub device_id: u64,
    pub inactive: bool,
    pub audio_io: bool,
    pub routes: Seq<Option<AuxInputRoute>>,
    pub native: bool,
    pub top_index: u32,
}

impl View for AuxConsumer {
    type V = ConsumerModel;

    open spec fn view(&self) -> ConsumerModel {
        ConsumerModel {
            device_id: self.device_id,
            inactive: self.inactive,
            audio_io: self.audio_io,
            routes: self.routes@,
            native: self.native,
            top_index: self.top_index,
        }
    }
}

/// Whether a target is the switch of a native device.
pub open spec fn is_switch_of(target: AutomationTarget, n: NativeDevice) -> bool {
    target == (AutomationTarget::NativeParam { device_id: n.id, param: NativeParamId::On(n.kind) })
}

/// Whether a native device can process: it is on, or an enabled lane or routing
/// of its owner moves its switch.
pub open spec fn can_activate(n: NativeDevice, lanes: Seq<LaneModel>, routings: Seq<ModRouting>) -> bool {
    ||| !n.bypassed
    ||| exists|i: int| 0 <= i < lanes.len() && (#[trigger] lanes[i]).enabled && is_switch_of(lanes[i].target, n)
    ||| exists|i: int|
        0 <= i < routings.len() && (#[trigger] routings[i]).enabled && is_switch_of(routings[i].target, n)
}

/// Whether any port is wired.
pub open spec fn any_wired(routes: Seq<Option<AuxInputRoute>>) -> bool {
    exists|k: int| 0 <= k < routes.len() && (#[trigger] routes[k]) is Some
}

/// The consumers inside one device, in signal order.
pub open spec fn device_consumers(
    d: DeviceModel,
    lanes: Seq<LaneModel>,
    routings: Seq<ModRouting>,
    top: u32,
) -> Seq<ConsumerModel>
    decreases d,
{
    match d {
        DeviceModel::Parallel { id, chains } => chain_consumers(chains, lanes, routings, top),
        DeviceModel::Plugin(p) => if any_wired(p.aux_inputs) {
            seq![
                ConsumerModel {
                    device_id: p.id,
                    inactive: p.bypassed,
                    audio_io: p.ports.has_audio_input && p.ports.has_audio_output,
                    routes: p.aux_inputs,
                    native: false,
                    top_index: top,
                },
            ]
        } else {
            Seq::empty()
        },
        DeviceModel::Native(n) => if n.has_sidechain() && n.aux_input is Some {
            seq![
                ConsumerModel {
                    device_id: n.id,
                    inactive: !can_activate(n, lanes, routings),
                    audio_io: true,
                    routes: seq![n.aux_input],
                    native: true,
                    top_index: top,
                },
            ]
        } else {
            Seq::empty()
        },
    }
}

/// The consumers inside the chains of a rack, chain by chain.
pub open spec fn chain_consumers(
    chains: Seq<ChainModel>,
    lanes: Seq<LaneModel>,
    routings: Seq<ModRouting>,
    top: u32,
) -> Seq<ConsumerModel>
    decreases chains,
{
    if chains.len() == 0 {
        Seq::empty()
    } else {
        list_consumers(chains[0].devices, lanes, routings, top) + chain_consumers(
            chains.drop_first(),
            lanes,
            routings,
            top,
        )
    }
}

/// The consumers inside a nested chain.
pub open spec fn list_consumers(
    devices: Seq<DeviceModel>,
    lanes: Seq<LaneModel>,
    routings: Seq<ModRouting>,
    top: u32,
) -> Seq<ConsumerModel>
    decreases devices,
{
    if devices.len() == 0 {
        Seq::empty()
    } else {
        device_consumers(devices[0], lanes, routings, top) + list_consumers(
            devices.drop_first(),
            lanes,
            routings,
            top,
        )
    }
}

/// The consumers of a top-level chain from place `from` on, in signal order.
pub open spec fn consumers_from(
    devices: Seq<DeviceModel>,
    lanes: Seq<LaneModel>,
    routings: Seq<ModRouting>,
    from: nat,
) -> Seq<ConsumerModel>
    decreases devices.len() - from,
{
    if from >= devices.len() {
        Seq::empty()
    } else {
        device_consumers(devices[from as int], lanes, routings, from as u32) + consumers_from(
            devices,
            lanes,
            routings,
            from + 1,
        )
    }
}

/// The consumers of a top-level chain, in signal order.
pub open spec fn consumers(
    devices: Seq<DeviceModel>,
    lanes: Seq<LaneModel>,
    routings: Seq<ModRouting>,
) -> Seq<ConsumerModel> {
    consumers_from(devices, lanes, routings, 0)
}

/// How many steps a device takes to walk.
spec fn device_weight(d: DeviceModel) -> nat
    decreases d,
{
    match d {
        DeviceModel::Parallel { id, chains } => 1 + chains_weight(chains),
        _ => 1,
    }
}

spec fn chains_weight(chains: Seq<ChainModel>) -> nat
    decreases chains,
{
    if chains.len() == 0 {
        0
    } else {
        1 + list_weight(chains[0].devices) + chains_weight(chains.drop_first())
    }
}

spec fn list_weight(devices: Seq<DeviceModel>) -> nat
    decreases devices,
{
    if devices.len() == 0 {
        0
    } else {
        device_weight(devices[0]) + list_weight(devices.drop_first())
    }
}

/// What is left to walk of the open chains, innermost last.
spec fn stack_consumers(
    stack: Seq<(&[Device], usize)>,
    lanes: Seq<LaneModel>,
    routings: Seq<ModRouting>,
    top: u32,
) -> Seq<ConsumerModel>
    decreases stack.len(),
{
    if stack.len() == 0 {
        Seq::empty()
    } else {
        list_consumers(device::device_models(stack.last().0@).skip(stack.last().1 as int), lanes, routings, top)
            + stack_consumers(stack.drop_last(), lanes, routings, top)
    }
}

spec fn stack_weight(stack: Seq<(&[Device], usize)>) -> nat
    decreases stack.len(),
{
    if stack.len() == 0 {
        0
    } else {
        1 + list_weight(device::device_models(stack.last().0@).skip(stack.last().1 as int)) + stack_weight(stack.drop_last())
    }
}

/// Walks the consumers of a device chain in signal order.
pub struct AuxConsumerIter<'a> {
    lanes: &'a [AutomationLane],
    routings: &'a [ModRouting],
    top: &'a [Device],
    /// The place of the next top-level device.
    next_top: usize,
    /// The open chains, innermost last, each with the place of its next device.
    nested: Vec<(&'a [Device], usize)>,
    top_index: u32,
}

/// Whether a native device can process, see [`can_activate`].
fn native_can_activate(n: NativeDevice, lanes: &[AutomationLane], routings: &[ModRouting]) -> (r: bool)
    ensures
        r == can_activate(n, model::models(lanes@), routings@),
{
    if !n.bypassed {
        return true;
    }
    let switch = AutomationTarget::NativeParam { device_id: n.id, param: NativeParamId::On(n.kind) };
    let mut i: usize = 0;
    while i < lanes.len()
        invariant
            i <= lanes@.len(),
            n.bypassed,
            switch == (AutomationTarget::NativeParam { device_id: n.id, param: NativeParamId::On(n.kind) }),
            forall|k: int| 0 <= k < i ==> !((#[trigger] lanes@[k]).enabled && is_switch_of(lanes@[k].target, n)),
        decreases lanes@.len() - i,
    {
        if lanes[i].enabled && lanes[i].target == switch {
            assert(model::models(lanes@)[i as int].enabled && is_switch_of(model::models(lanes@)[i as int].target, n));
            return true;
        }
        i += 1;
    }
    let mut j: usize = 0;
    while j < routings.len()
        invariant
            j <= routings@.len(),
            n.bypassed,
            switch == (AutomationTarget::NativeParam { device_id: n.id, param: NativeParamId::On(n.kind) }),
            forall|k: int| 0 <= k < j ==> !((#[trigger] routings@[k]).enabled && is_switch_of(routings@[k].target, n)),
        decreases routings@.len() - j,
    {
        if routings[j].enabled && routings[j].target == switch {
            assert(routings@[j as int].enabled && is_switch_of(routings@[j as int].target, n));
            return true;
        }
        j += 1;
    }
    assert forall|k: int| 0 <= k < model::models(lanes@).len() implies !((#[trigger] model::models(lanes@)[k]).enabled
        && is_switch_of(model::models(lanes@)[k].target, n)) by {
        assert(model::models(lanes@)[k] == lanes@[k]@);
    }
    false
}

/// Whether any port is wired, see [`any_wired`].
fn has_wired(routes: &Vec<Option<AuxInputRoute>>) -> (r: bool)
    ensures
        r == any_wired(routes@),
{
    let mut i: usize = 0;
    while i < routes.len()
        invariant
            i <= routes@.len(),
            forall|k: int| 0 <= k < i ==> (#[trigger] routes@[k]) is None,
        decreases routes@.len() - i,
    {
        if routes[i].is_some() {
            assert(routes@[i as int] is Some);
            return true;
        }
        i += 1;
    }
    false
}

impl<'a> AuxConsumerIter<'a> {
    /// The consumers still to come.
    pub closed spec fn rest(&self) -> Seq<ConsumerModel> {
        stack_consumers(self.nested@, model::models(self.lanes@), self.routings@, self.top_index) + consumers_from(
            device::device_models(self.top@),
            model::models(self.lanes@),
            self.routings@,
            self.next_top as nat,
        )
    }

    spec fn weight(&self) -> nat {
        stack_weight(self.nested@) + list_weight(device::device_models(self.top@).skip(self.next_top as int))
    }

    spec fn wf(&self) -> bool {
        &&& self.next_top <= self.top@.len()
        &&& forall|k: int| 0 <= k < self.nested@.len() ==> (#[trigger] self.nested@[k]).1 <= self.nested@[k].0@.len()
    }

    /// Opens the chains of a rack so that the first one is walked first.
    fn open_chains(&mut self, chains: &'a Vec<ParallelChain>)
        requires
            old(self).wf(),
        ensures
            final(self).wf(),
            final(self).lanes == old(self).lanes,
            final(self).routings == old(self).routings,
            final(self).top == old(self).top,
            final(self).next_top == old(self).next_top,
            final(self).top_index == old(self).top_index,
            final(self).rest() == chain_consumers(
                device::chain_models(chains@),
                model::models(old(self).lanes@),
                old(self).routings@,
                old(self).top_index,
            ) + old(self).rest(),
            final(self).weight() == chains_weight(device::chain_models(chains@)) + old(self).weight(),
    {
        let ghost lanes = model::models(self.lanes@);
        let ghost routings = self.routings@;
        let ghost top = self.top_index;
        let ghost before = self.nested@;
        let ghost cm = device::chain_models(chains@);
        let mut j: usize = chains.len();
        proof {
            assert(cm.skip(j as int) =~= Seq::<ChainModel>::empty());
            assert(chain_consumers(cm.skip(j as int), lanes, routings, top) =~= Seq::<ConsumerModel>::empty());
            assert(Seq::<ConsumerModel>::empty() + stack_consumers(before, lanes, routings, top) =~= stack_consumers(
                before,
                lanes,
                routings,
                top,
            ));
        }
        while j > 0
            invariant
                j <= chains@.len(),
                cm == device::chain_models(chains@),
                lanes == model::models(self.lanes@),
                routings == self.routings@,
                top == self.top_index,
                self.wf(),
                self.lanes == old(self).lanes,
                self.routings == old(self).routings,
                self.top == old(self).top,
                self.next_top == old(self).next_top,
                self.top_index == old(self).top_index,
                stack_consumers(self.nested@, lanes, routings, top) == chain_consumers(
                    cm.skip(j as int),
                    lanes,
                    routings,
                    top,
                ) + stack_consumers(before, lanes, routings, top),
                stack_weight(self.nested@) == chains_weight(cm.skip(j as int)) + stack_weight(before),
            decreases j,
        {
            j = j - 1;
            let c = &chains[j];
            let ghost prev = self.nested@;
            self.nested.push((c.devices.as_slice(), 0));
            proof {
                let rest = cm.skip(j as int);
                assert(rest.drop_first() =~= cm.skip(j + 1));
                assert(rest[0] == device::chain_model(chains@[j as int]));
                assert(self.nested@.drop_last() =~= prev);
                assert(self.nested@.last().0@ == c.devices@);
                let dm = device::device_models(c.devices@);
                assert(dm.skip(0) =~= dm);
                assert(rest[0].devices == dm);
                assert(list_consumers(dm, lanes, routings, top) + (chain_consumers(
                    cm.skip(j + 1),
                    lanes,
                    routings,
                    top,
                ) + stack_consumers(before, lanes, routings, top)) =~= chain_consumers(rest, lanes, routings, top)
                    + stack_consumers(before, lanes, routings, top));
            }
        }
        proof {
            assert(cm.skip(0) =~= cm);
            let tail = consumers_from(device::device_models(self.top@), lanes, routings, self.next_top as nat);
            assert(chain_consumers(cm, lanes, routings, top) + stack_consumers(before, lanes, routings, top) + tail
                =~= chain_consumers(cm, lanes, routings, top) + (stack_consumers(before, lanes, routings, top) + tail));
        }
    }

    /// The next consumer, if any is left.
    pub fn next(&mut self) -> (r: Option<AuxConsumer>)
        requires
            old(self).valid(),
        ensures
            final(self).valid(),
            match r {
                Some(c) => old(self).rest() == seq![c@] + final(self).rest(),
                None => old(self).rest() == Seq::<ConsumerModel>::empty() && final(self).rest() == old(self).rest(),
            },
    {
        let ghost target = self.rest();
        loop
            invariant
                self.wf(),
                self.rest() == target,
                target == old(self).rest(),
            decreases self.weight(),
        {
            let ghost lanes = model::models(self.lanes@);
            let ghost routings = self.routings@;
            let ghost nested = self.nested@;
            let ghost weight = self.weight();
            let depth: usize = self.nested.len();
            let d: &'a Device;
            if depth > 0 {
                let open: (&'a [Device], usize) = self.nested[depth - 1];
                let devices: &'a [Device] = open.0;
                let place: usize = open.1;
                if place >= devices.len() {
                    self.nested.pop();
                    proof {
                        assert(nested.drop_last() =~= self.nested@);
                        assert(device::device_models(devices@).skip(place as int) =~= Seq::<DeviceModel>::empty());
                        assert(Seq::<ConsumerModel>::empty() + stack_consumers(
                            self.nested@,
                            lanes,
                            routings,
                            self.top_index,
                        ) =~= stack_consumers(self.nested@, lanes, routings, self.top_index));
                    }
                    continue;
                }
                d = &devices[place];
                self.nested.pop();
                self.nested.push((devices, place + 1));
                proof {
                    let left = device::device_models(devices@).skip(place as int);
                    assert(left.drop_first() =~= device::device_models(devices@).skip(place + 1));
                    assert(left[0] == device::device_model(*d));
                    assert(self.nested@.drop_last() =~= nested.drop_last());
                    let here = device_consumers(d@, lanes, routings, self.top_index);
                    let a = list_consumers(left.drop_first(), lanes, routings, self.top_index);
                    let b = stack_consumers(nested.drop_last(), lanes, routings, self.top_index);
                    let c = consumers_from(device::device_models(self.top@), lanes, routings, self.next_top as nat);
                    assert(((here + a) + b) + c =~= here + ((a + b) + c));
                    assert(target == here + self.rest());
                    assert(weight == device_weight(d@) + self.weight());
                }
            } else {
                if self.next_top >= self.top.len() {
                    proof {
                        assert(self.rest() =~= Seq::<ConsumerModel>::empty());
                    }
                    return None;
                }
                d = &self.top[self.next_top];
                self.top_index = self.next_top as u32;
                self.next_top = self.next_top + 1;
                proof {
                    let dm = device::device_models(self.top@);
                    let left = dm.skip(self.next_top - 1);
                    assert(left.drop_first() =~= dm.skip(self.next_top as int));
                    assert(left[0] == device::device_model(*d));
                    let here = device_consumers(d@, lanes, routings, self.top_index);
                    let c = consumers_from(dm, lanes, routings, self.next_top as nat);
                    let empty = Seq::<ConsumerModel>::empty();
                    assert(empty + (here + c) =~= here + (empty + c));
                    assert(target == here + self.rest());
                    assert(weight == device_weight(d@) + self.weight());
                }
            }
            match d {
                Device::Parallel(p) => {
                    self.open_chains(&p.chains);
                },
                Device::Plugin(p) => {
                    if has_wired(&p.aux_inputs) {
                        let c = AuxConsumer {
                            device_id: p.id,
                            inactive: p.bypassed,
                            audio_io: p.ports.has_audio_input && p.ports.has_audio_output,
                            routes: p.aux_inputs.clone(),
                            native: false,
                            top_index: self.top_index,
                        };
                        assert(c.routes@ =~= p.aux_inputs@);
                        return Some(c);
                    }
                    assert(Seq::<ConsumerModel>::empty() + self.rest() =~= self.rest());
                },
                Device::Native(n) => {
                    if n.has_sidechain() && n.aux_input.is_some() {
                        let mut routes: Vec<Option<AuxInputRoute>> = Vec::new();
                        routes.push(n.aux_input);
                        let active = native_can_activate(*n, self.lanes, self.routings);
                        let c = AuxConsumer {
                            device_id: n.id,
                            inactive: !active,
                            audio_io: true,
                            routes,
                            native: true,
                            top_index: self.top_index,
                        };
                        assert(c.routes@ =~= seq![n.aux_input]);
                        return Some(c);
                    }
                    assert(Seq::<ConsumerModel>::empty() + self.rest() =~= self.rest());
                },
            }
        }
    }

    /// The walker is in a state that walking produced.
    pub closed spec fn valid(&self) -> bool {
        self.wf()
    }

    /// The rest of the walk, collected.
    pub fn collect(self) -> (r: Vec<AuxConsumer>)
        requires
            self.valid(),
        ensures
            model::models(r@) == self.rest(),
    {
        let ghost all = self.rest();
        let mut walk = self;
        let mut r: Vec<AuxConsumer> = Vec::new();
        assert(model::models(r@) + walk.rest() =~= all);
        loop
            invariant
                walk.valid(),
                model::models(r@) + walk.rest() == all,
            ensures
                model::models(r@) == all,
            decreases walk.rest().len(),
        {
            let ghost before = walk.rest();
            match walk.next() {
                Some(c) => {
                    let ghost prev = r@;
                    r.push(c);
                    proof {
                        assert(before.len() == 1 + walk.rest().len());
                        assert(model::models(r@) =~= model::models(prev).push(c@));
                        assert(model::models(prev).push(c@) + walk.rest() =~= model::models(prev) + (seq![c@] + walk.rest()));
                    }
                },
                None => {
                    proof {
                        assert(model::models(r@) + Seq::<ConsumerModel>::empty() =~= model::models(r@));
                    }
                    break;
                },
            }
        }
        r
    }
}

/// The consumers of `devices`, the chain of one track. `lanes` and `routings`
/// belong to the same owner: they decide what can be switched on.
pub fn aux_consumers<'a>(
    devices: &'a [Device],
    lanes: &'a [AutomationLane],
    routings: &'a [ModRouting],
) -> (r: AuxConsumerIter<'a>)
    ensures
        r.valid(),
        r.rest() == consumers(device::device_models(devices@), model::models(lanes@), routings@),
{
    let r = AuxConsumerIter { lanes, routings, top: devices, next_top: 0, nested: Vec::new(), top_index: 0 };
    proof {
        assert(r.rest() =~= consumers(device::device_models(devices@), model::models(lanes@), routings@));
    }
    r
}

} // verus!
