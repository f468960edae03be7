//! The device tree of a track: plugins, native devices and parallel racks.

use crate::plugin_format::PluginFormat;
use crate::port_config::PortConfig;
use vstd::prelude::*;

verus! {

/// Where on the producing track a tap reads.
#[derive(Clone, Copy, Debug, PartialEq, Eq, Structural)]
pub enum TapPoint {
    /// The input of the device chain.
    PreFx,
    /// After the fader.
    PostFader,
}

impl Default for TapPoint {
    fn default() -> (r: TapPoint)
        ensures
            r == TapPoint::PostFader,
    {
        TapPoint::PostFader
    }
}

/// What a tap reads: a track, or one chain inside a parallel rack.
#[derive(Clone, Copy, Debug, PartialEq, Eq, Structural)]
pub enum TapSource {
    Track(u32),
    Chain(u64),
}

/// A point of the signal flow that a device reads from.
#[derive(Clone, Copy, Debug, PartialEq, Eq, Structural)]
pub struct AudioTap {
    pub source: TapSource,
    pub tap_point: TapPoint,
}

/// The wiring of one auxiliary input.
#[derive(Clone, Copy, Debug, PartialEq, Eq, Structural)]
pub struct AuxInputRoute {
    pub tap: AudioTap,
}

impl AuxInputRoute {
    /// A route that reads `track` after its fader.
    pub fn post_fader(track: u32) -> (r: AuxInputRoute)
        ensures
            r == (AuxInputRoute {
                tap: AudioTap { source: TapSource::Track(track), tap_point: TapPoint::PostFader },
            }),
    {
        AuxInputRoute { tap: AudioTap { source: TapSource::Track(track), tap_point: TapPoint::PostFader } }
    }
}

/// The kinds of native devices.
#[derive(Clone, Copy, Debug, PartialEq, Eq, Hash, Structural)]
pub enum NativeKind {
    Comp,
    Eq,
    BusComp,
    ToneEq,
    Reverb,
    Delay,
}

/// A device that the engine implements itself.
#[derive(Clone, Copy, Debug, PartialEq, Eq, Structural)]
pub struct NativeDevice {
    pub id: u64,
    pub kind: NativeKind,
    /// Part of every track, as opposed to added by the user.
    pub builtin: bool,
    pub ordinal: u32,
    pub bypassed: bool,
    /// The side chain of a compressor.
    pub aux_input: Option<AuxInputRoute>,
}

impl NativeDevice {
    /// The device of kind `kind` that every track owns.
    pub fn new_builtin(kind: NativeKind, id: u64) -> (r: NativeDevice)
        ensures
            r == (NativeDevice { id, kind, builtin: true, ordinal: 1, bypassed: true, aux_input: None }),
    {
        NativeDevice { id, kind, builtin: true, ordinal: 1, bypassed: true, aux_input: None }
    }

    /// A device of kind `kind` that the user added, the `ordinal`th of its kind.
    pub fn new_added(kind: NativeKind, id: u64, ordinal: u32) -> (r: NativeDevice)
        ensures
            r == (NativeDevice { id, kind, builtin: false, ordinal, bypassed: false, aux_input: None }),
    {
        NativeDevice { id, kind, builtin: false, ordinal, bypassed: false, aux_input: None }
    }

    /// Whether devices of this kind read a side chain.
    pub open spec fn spec_has_sidechain(self) -> bool {
        self.kind == NativeKind::Comp || self.kind == NativeKind::BusComp
    }

    /// Whether devices of this kind read a side chain: the compressors do.
    #[verifier::when_used_as_spec(spec_has_sidechain)]
    pub fn has_sidechain(self) -> (r: bool)
        ensures
            r == self.spec_has_sidechain(),
    {
        matches!(self.kind, NativeKind::Comp | NativeKind::BusComp)
    }
}

/// A plugin in a device chain.
#[derive(Debug)]
pub struct PluginInstance {
    pub id: u64,
    pub plugin_id: String,
    pub format: PluginFormat,
    pub bypassed: bool,
    pub ports: PortConfig,
    /// The wiring of each auxiliary input port.
    pub aux_inputs: Vec<Option<AuxInputRoute>>,
    /// The track that each parallel output port feeds.
    pub aux_outputs: Vec<Option<u32>>,
}

/// The model of a plugin.
#[verifier::ext_equal]
pub struct PluginModel {
    pub id: u64,
    pub plugin_id: Seq<char>,
    pub format: PluginFormat,
    pub bypassed: bool,
    pub ports: PortConfig,
    pub aux_inputs: Seq<Option<AuxInputRoute>>,
    pub aux_outputs: Seq<Option<u32>>,
}

impl View for PluginInstance {
    type V = PluginModel;

    open spec fn view(&self) -> PluginModel {
        PluginModel {
            id: self.id,
            plugin_id: self.plugin_id@,
            format: self.format,
            bypassed: self.bypassed,
            ports: self.ports,
            aux_inputs: self.aux_inputs@,
            aux_outputs: self.aux_outputs@,
        }
    }
}

impl PluginInstance {
    /// A plugin with the given ports, not bypassed and not wired.
    pub fn with_ports(plugin_id: String, format: PluginFormat, ports: PortConfig) -> (r: PluginInstance)
        ensures
            r@ == (PluginModel {
                id: 0,
                plugin_id: plugin_id@,
                format,
                bypassed: false,
                ports,
                aux_inputs: Seq::empty(),
                aux_outputs: Seq::empty(),
            }),
    {
        PluginInstance {
            id: 0,
            plugin_id,
            format,
            bypassed: false,
            ports,
            aux_inputs: Vec::new(),
            aux_outputs: Vec::new(),
        }
    }

    /// A plugin whose ports are not known yet.
    pub fn new(plugin_id: String, format: PluginFormat) -> (r: PluginInstance)
        ensures
            r@ == (PluginModel {
                id: 0,
                plugin_id: plugin_id@,
                format,
                bypassed: false,
                ports: crate::port_config::no_ports(),
                aux_inputs: Seq::empty(),
                aux_outputs: Seq::empty(),
            }),
    {
        PluginInstance::with_ports(plugin_id, format, PortConfig::default())
    }
}

/// A rack of chains that run side by side.
#[derive(Debug)]
pub struct Parallel {
    pub id: u64,
    pub chains: Vec<ParallelChain>,
}

/// One chain of a rack.
#[derive(Debug)]
pub struct ParallelChain {
    pub id: u64,
    pub name: String,
    pub devices: Vec<Device>,
}

/// One device of a chain.
#[derive(Debug)]
pub enum Device {
    Plugin(PluginInstance),
    Native(NativeDevice),
    Parallel(Parallel),
}

/// The model of a chain.
#[verifier::ext_equal]
pub struct ChainModel {
    pub id: u64,
    pub name: Seq<char>,
    pub devices: Seq<DeviceModel>,
}

/// The model of a device.
#[verifier::ext_equal]
pub enum DeviceModel {
    Plugin(PluginModel),
    Native(NativeDevice),
    Parallel { id: u64, chains: Seq<ChainModel> },
}

/// The model of a device.
pub open spec fn device_model(d: Device) -> DeviceModel
    decreases d,
{
    match d {
        Device::Plugin(p) => DeviceModel::Plugin(p@),
        Device::Native(n) => DeviceModel::Native(n),
        Device::Parallel(r) => DeviceModel::Parallel { id: r.id, chains: chain_models(r.chains@) },
    }
}

/// The models of the chains of a rack.
pub open spec fn chain_models(chains: Seq<ParallelChain>) -> Seq<ChainModel>
    decreases chains,
{
    Seq::new(
        chains.len(),
        |i: int|
            if 0 <= i < chains.len() {
                chain_model(chains[i])
            } else {
                arbitrary()
            },
    )
}

/// The model of a chain.
pub open spec fn chain_model(c: ParallelChain) -> ChainModel
    decreases c,
{
    ChainModel { id: c.id, name: c.name@, devices: device_models(c.devices@) }
}

/// The models of the devices of a chain.
pub open spec fn device_models(devices: Seq<Device>) -> Seq<DeviceModel>
    decreases devices,
{
    Seq::new(
        devices.len(),
        |i: int|
            if 0 <= i < devices.len() {
                device_model(devices[i])
            } else {
                arbitrary()
            },
    )
}

impl View for Device {
    type V = DeviceModel;

    open spec fn view(&self) -> DeviceModel {
        device_model(*self)
    }
}

impl View for ParallelChain {
    type V = ChainModel;

    open spec fn view(&self) -> ChainModel {
        chain_model(*self)
    }
}

impl Clone for PluginInstance {
    fn clone(&self) -> (r: PluginInstance)
        ensures
            r@ == self@,
    {
        let r = PluginInstance {
            id: self.id,
            plugin_id: self.plugin_id.clone(),
            format: self.format,
            bypassed: self.bypassed,
            ports: self.ports,
            aux_inputs: self.aux_inputs.clone(),
            aux_outputs: self.aux_outputs.clone(),
        };
        assert(r.aux_inputs@ =~= self.aux_inputs@);
        assert(r.aux_outputs@ =~= self.aux_outputs@);
        r
    }
}

/// A copy of a device tree.
fn copy_device(d: &Device) -> (r: Device)
    ensures
        device_model(r) == device_model(*d),
    decreases *d,
{
    match d {
        Device::Plugin(p) => Device::Plugin(p.clone()),
        Device::Native(n) => Device::Native(*n),
        Device::Parallel(p) => {
            let mut chains: Vec<ParallelChain> = Vec::new();
            let mut i: usize = 0;
            while i < p.chains.len()
                invariant
                    i <= p.chains@.len(),
                    *d == Device::Parallel(*p),
                    chains@.len() == i,
                    forall|k: int| 0 <= k < i ==> chain_model(#[trigger] chains@[k]) == chain_model(p.chains@[k]),
                decreases p.chains@.len() - i,
            {
                let c = &p.chains[i];
                assert(decreases_to!(*d => d->Parallel_0));
                assert(decreases_to!(d->Parallel_0 => d->Parallel_0.chains));
                assert(decreases_to!(p.chains => p.chains@));
                assert(decreases_to!(p.chains@ => p.chains@[i as int]));
                assert(decreases_to!(p.chains@[i as int] => c.devices@));
                let devices = copy_devices(&c.devices);
                chains.push(ParallelChain { id: c.id, name: c.name.clone(), devices });
                i += 1;
            }
            assert(chain_models(chains@) =~= chain_models(p.chains@));
            Device::Parallel(Parallel { id: p.id, chains })
        },
    }
}

/// A copy of a device chain.
pub fn copy_devices(devices: &Vec<Device>) -> (r: Vec<Device>)
    ensures
        device_models(r@) == device_models(devices@),
    decreases devices@,
{
    let mut r: Vec<Device> = Vec::new();
    let mut i: usize = 0;
    while i < devices.len()
        invariant
            i <= devices@.len(),
            r@.len() == i,
            forall|k: int| 0 <= k < i ==> device_model(#[trigger] r@[k]) == device_model(devices@[k]),
        decreases devices@.len() - i,
    {
        r.push(copy_device(&devices[i]));
        i += 1;
    }
    assert(device_models(r@) =~= device_models(devices@));
    r
}

impl Clone for Device {
    fn clone(&self) -> (r: Device)
        ensures
            r@ == self@,
    {
        copy_device(self)
    }
}

impl DeviceModel {
    /// The id of a device.
    pub open spec fn id(self) -> u64 {
        match self {
            DeviceModel::Plugin(p) => p.id,
            DeviceModel::Native(n) => n.id,
            DeviceModel::Parallel { id, .. } => id,
        }
    }
}

impl Device {
    /// The id of this device.
    pub fn id(&self) -> (r: u64)
        ensures
            r == self@.id(),
    {
        match self {
            Device::Plugin(p) => p.id,
            Device::Native(n) => n.id,
            Device::Parallel(r) => r.id,
        }
    }
}

} // verus!
