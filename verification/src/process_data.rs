//! What the audio engine hands a plugin for one block, and gets back.

use crate::beat::Beat;
use vstd::prelude::*;

verus! {

/// How many frames a block has at most.
pub const MAX_FRAMES: usize = 1024;

pub const MAX_CHANNELS: usize = 2;

/// How many events a block has room for.
pub const MAX_EVENTS: usize = 256;

/// How many modulations a block has room for. They have a room of their own, so
/// that they never take that of notes.
pub const MAX_PARAM_MODS: usize = 1024;

/// How many events and modulations a block has room for together.
pub const MAX_RT_EVENT_BUFFER: usize = 1280;

/// How many further inputs a plugin has at most.
pub const MAX_AUX_IN: usize = 2;

/// How many further outputs a plugin has at most.
pub const MAX_AUX_OUT: usize = 16;

/// What stands for the arrangement in place of the clip of a cell.
pub const ARRANGER_CELL_ID: u32 = 0;

/// The bit pattern of the float 120.
pub const TEMPO_120: u32 = 0x42f0_0000;

// ---------------------------------------------------------------------------
// Rows
// ---------------------------------------------------------------------------

/// The time of the row that a device is in.
#[derive(Clone, Copy, Debug, PartialEq, Eq, Structural)]
pub struct RowTransport {
    pub pos_beats: Beat,
    pub loop_start_beats: Beat,
    pub loop_end_beats: Beat,
    /// The clip that plays; [`ARRANGER_CELL_ID`] if it is the arrangement.
    pub cell_clip_id: u32,
    /// Not zero if the row is silent.
    pub silent: u8,
}

impl Default for RowTransport {
    fn default() -> (r: RowTransport)
        ensures
            r == (RowTransport {
                pos_beats: Beat { bits: 0 },
                loop_start_beats: Beat { bits: 0 },
                loop_end_beats: Beat { bits: 0 },
                cell_clip_id: 0,
                silent: 0,
            }),
    {
        RowTransport {
            pos_beats: Beat { bits: 0 },
            loop_start_beats: Beat { bits: 0 },
            loop_end_beats: Beat { bits: 0 },
            cell_clip_id: 0,
            silent: 0,
        }
    }
}

impl RowTransport {
    /// Whether the arrangement plays in the row.
    pub fn is_arrangement(self) -> (r: bool)
        ensures
            r == (self.cell_clip_id == ARRANGER_CELL_ID),
    {
        self.cell_clip_id == ARRANGER_CELL_ID
    }

    /// Whether the row is silent.
    pub fn is_silent(self) -> (r: bool)
        ensures
            r == (self.silent != 0),
    {
        self.silent != 0
    }

    /// Whether the row has a loop of its own.
    pub fn has_loop(self) -> (r: bool)
        ensures
            r == self.loop_start_beats.lt(self.loop_end_beats),
    {
        self.loop_start_beats.lt(self.loop_end_beats)
    }
}

// ---------------------------------------------------------------------------
// Events
// ---------------------------------------------------------------------------

#[derive(Clone, Copy, Debug, PartialEq, Eq, Structural)]
pub enum EventKind {
    NoteOn,
    NoteOff,
    /// The value of a parameter.
    ParamValue,
}

/// A note or a parameter value within a block.
#[derive(Clone, Copy, Debug, PartialEq, Eq, Structural)]
pub struct Event {
    pub kind: EventKind,
    /// The frame within the block.
    pub time: u32,
    pub key: u8,
    pub channel: u8,
    /// The bit pattern of a double.
    pub velocity: u64,
    pub param_id: u32,
    pub note_id: u32,
    /// The bit pattern of a double.
    pub value: u64,
}

/// How far a parameter is moved.
#[derive(Clone, Copy, Debug, PartialEq, Eq, Structural)]
pub struct ParamMod {
    /// The frame within the block.
    pub time: u32,
    pub param_id: u32,
    /// The bit pattern of a double.
    pub value: u64,
}

/// A note that starts.
pub open spec fn note_on(time: u32, key: u8, velocity: u64, channel: u8, note_id: u32) -> Event {
    Event { kind: EventKind::NoteOn, time, key, channel, velocity, param_id: 0, note_id, value: 0 }
}

/// A note that ends.
pub open spec fn note_off(time: u32, key: u8, channel: u8, note_id: u32) -> Event {
    Event { kind: EventKind::NoteOff, time, key, channel, velocity: 0, param_id: 0, note_id, value: 0 }
}

/// The value of a parameter.
pub open spec fn param_value(time: u32, param_id: u32, value: u64) -> Event {
    Event { kind: EventKind::ParamValue, time, key: 0, channel: 0, velocity: 0, param_id, note_id: 0, value }
}

// ---------------------------------------------------------------------------
// Where modulations go
// ---------------------------------------------------------------------------

/// Which of the places for modulations are taken: `count` from `head` on, going
/// round. The numbers come from shared memory and may be anything.
#[derive(Clone, Copy, Debug, PartialEq, Eq, Structural)]
pub struct ModRing {
    pub count: u32,
    pub head: u32,
    /// How many were dropped in this block.
    pub dropped: u32,
}

impl ModRing {
    /// How many places are taken.
    pub open spec fn taken(self) -> int {
        if self.count < MAX_PARAM_MODS {
            self.count as int
        } else {
            MAX_PARAM_MODS as int
        }
    }

    /// The place of the one that came as the `i`-th.
    pub open spec fn place(self, i: int) -> int {
        (self.head as int + i) % (MAX_PARAM_MODS as int)
    }

    /// How many places are taken.
    pub fn len(self) -> (r: usize)
        ensures
            r == self.taken(),
    {
        if (self.count as u64) < MAX_PARAM_MODS as u64 {
            self.count as usize
        } else {
            MAX_PARAM_MODS
        }
    }

    /// The place of the one that came as the `i`-th.
    pub fn slot(self, i: usize) -> (r: usize)
        requires
            i < self.taken(),
        ensures
            r == self.place(i as int),
            r < MAX_PARAM_MODS,
    {
        let at: u64 = (self.head as u64 + i as u64) % (MAX_PARAM_MODS as u64);
        at as usize
    }

    /// Takes a place for a new one. If there is none left, the oldest makes room:
    /// what comes last must not get lost, or a modulation that ends would stay.
    pub fn push(&mut self) -> (slot: usize)
        ensures
            slot < MAX_PARAM_MODS,
            old(self).taken() < MAX_PARAM_MODS ==> slot == old(self).place(old(self).taken()) && *final(self) == (
            ModRing { count: (old(self).count + 1) as u32, ..*old(self) }),
            old(self).taken() == MAX_PARAM_MODS ==> slot == old(self).place(0) && *final(self) == (ModRing {
                head: old(self).place(1) as u32,
                dropped: if old(self).dropped == u32::MAX {
                    u32::MAX
                } else {
                    (old(self).dropped + 1) as u32
                },
                ..*old(self)
            }),
    {
        let n: usize = self.len();
        let head: u64 = self.head as u64 % (MAX_PARAM_MODS as u64);
        if n < MAX_PARAM_MODS {
            let at: u64 = (head + n as u64) % (MAX_PARAM_MODS as u64);
            assert(at == self.place(n as int));
            self.count = self.count + 1;
            at as usize
        } else {
            if self.dropped < u32::MAX {
                self.dropped = self.dropped + 1;
            }
            let next: u64 = (head + 1) % (MAX_PARAM_MODS as u64);
            assert(next == self.place(1));
            self.head = next as u32;
            head as usize
        }
    }
}

// ---------------------------------------------------------------------------
// A block
// ---------------------------------------------------------------------------

/// What the audio engine hands a plugin for one block, and gets back. Samples
/// are the bit patterns of floats.
pub struct ProcessData {
    pub frames: u32,
    pub steady_time: u64,
    pub sample_rate: u32,
    pub playing: u8,
    pub n_events_in: u32,
    pub events_in: Vec<Event>,
    pub n_events_out: u32,
    pub events_out: Vec<Event>,
    pub param_mods: Vec<ParamMod>,
    pub mod_ring: ModRing,
    /// By channel and frame.
    pub buffer_in: Vec<Vec<u32>>,
    pub buffer_out: Vec<Vec<u32>>,
    /// By input, channel and frame.
    pub buffer_aux_in: Vec<Vec<Vec<u32>>>,
    pub aux_in_active: Vec<u8>,
    /// By output, channel and frame.
    pub buffer_aux_out: Vec<Vec<Vec<u32>>>,
    pub aux_out_active: Vec<u8>,
    pub bpm: u32,
    pub tsig_num: u16,
    pub tsig_denom: u16,
    pub loop_start_beats: Beat,
    pub loop_end_beats: Beat,
    pub song_pos_beats: Beat,
    pub looping: u8,
    pub row: RowTransport,
}

/// Whether samples are silent: so many frames on each of both channels.
pub open spec fn is_silence(b: Seq<Vec<u32>>) -> bool {
    &&& b.len() == MAX_CHANNELS
    &&& forall|c: int| 0 <= c < b.len() ==> is_flat((#[trigger] b[c])@)
}

/// Whether samples are silent, of one channel.
pub open spec fn is_flat(b: Seq<u32>) -> bool {
    b.len() == MAX_FRAMES && forall|f: int| 0 <= f < b.len() ==> #[trigger] b[f] == 0
}

/// Whether samples are silent, of `n` inputs or outputs.
pub open spec fn are_silence(b: Seq<Vec<Vec<u32>>>, n: nat) -> bool {
    b.len() == n && forall|p: int| 0 <= p < b.len() ==> is_silence((#[trigger] b[p])@)
}

/// Whether flags are all off, so many.
pub open spec fn all_off(b: Seq<u8>, n: nat) -> bool {
    b.len() == n && forall|p: int| 0 <= p < b.len() ==> #[trigger] b[p] == 0
}

fn silent_channel() -> (r: Vec<u32>)
    ensures
        is_flat(r@),
{
    let mut r: Vec<u32> = Vec::new();
    let mut i: usize = 0;
    while i < MAX_FRAMES
        invariant
            i <= MAX_FRAMES,
            r@.len() == i,
            forall|f: int| 0 <= f < i ==> #[trigger] r@[f] == 0,
        decreases MAX_FRAMES - i,
    {
        r.push(0);
        i += 1;
    }
    r
}

fn silent_buffer() -> (r: Vec<Vec<u32>>)
    ensures
        is_silence(r@),
{
    let mut r: Vec<Vec<u32>> = Vec::new();
    let mut i: usize = 0;
    while i < MAX_CHANNELS
        invariant
            i <= MAX_CHANNELS,
            r@.len() == i,
            forall|c: int| 0 <= c < i ==> is_flat((#[trigger] r@[c])@),
        decreases MAX_CHANNELS - i,
    {
        r.push(silent_channel());
        i += 1;
    }
    r
}

fn silent_buffers(n: usize) -> (r: Vec<Vec<Vec<u32>>>)
    ensures
        are_silence(r@, n as nat),
{
    let mut r: Vec<Vec<Vec<u32>>> = Vec::new();
    let mut i: usize = 0;
    while i < n
        invariant
            i <= n,
            r@.len() == i,
            forall|c: int| 0 <= c < i ==> is_silence((#[trigger] r@[c])@),
        decreases n - i,
    {
        r.push(silent_buffer());
        i += 1;
    }
    r
}

fn flags_off(n: usize) -> (r: Vec<u8>)
    ensures
        all_off(r@, n as nat),
{
    let mut r: Vec<u8> = Vec::new();
    let mut i: usize = 0;
    while i < n
        invariant
            i <= n,
            r@.len() == i,
            forall|f: int| 0 <= f < i ==> #[trigger] r@[f] == 0,
        decreases n - i,
    {
        r.push(0);
        i += 1;
    }
    r
}

fn no_events() -> (r: Vec<Event>)
    ensures
        r@.len() == MAX_EVENTS,
        forall|i: int| 0 <= i < r@.len() ==> #[trigger] r@[i] == note_on(0, 0, 0, 0, 0),
{
    let mut r: Vec<Event> = Vec::new();
    let mut i: usize = 0;
    while i < MAX_EVENTS
        invariant
            i <= MAX_EVENTS,
            r@.len() == i,
            forall|k: int| 0 <= k < i ==> #[trigger] r@[k] == note_on(0, 0, 0, 0, 0),
        decreases MAX_EVENTS - i,
    {
        r.push(
            Event {
                kind: EventKind::NoteOn,
                time: 0,
                key: 0,
                channel: 0,
                velocity: 0,
                param_id: 0,
                note_id: 0,
                value: 0,
            },
        );
        i += 1;
    }
    r
}

fn no_mods() -> (r: Vec<ParamMod>)
    ensures
        r@.len() == MAX_PARAM_MODS,
        forall|i: int| 0 <= i < r@.len() ==> #[trigger] r@[i] == (ParamMod { time: 0, param_id: 0, value: 0 }),
{
    let mut r: Vec<ParamMod> = Vec::new();
    let mut i: usize = 0;
    while i < MAX_PARAM_MODS
        invariant
            i <= MAX_PARAM_MODS,
            r@.len() == i,
            forall|k: int| 0 <= k < i ==> #[trigger] r@[k] == (ParamMod { time: 0, param_id: 0, value: 0 }),
        decreases MAX_PARAM_MODS - i,
    {
        r.push(ParamMod { time: 0, param_id: 0, value: 0 });
        i += 1;
    }
    r
}

/// Everything of a block that no event or modulation touches.
pub open spec fn same_apart_from_queues(a: ProcessData, b: ProcessData) -> bool {
    &&& a.frames == b.frames
    &&& a.steady_time == b.steady_time
    &&& a.sample_rate == b.sample_rate
    &&& a.playing == b.playing
    &&& a.events_out@ == b.events_out@
    &&& a.buffer_in@ == b.buffer_in@
    &&& a.buffer_out@ == b.buffer_out@
    &&& a.buffer_aux_in@ == b.buffer_aux_in@
    &&& a.aux_in_active@ == b.aux_in_active@
    &&& a.buffer_aux_out@ == b.buffer_aux_out@
    &&& a.aux_out_active@ == b.aux_out_active@
    &&& a.bpm == b.bpm
    &&& a.tsig_num == b.tsig_num
    &&& a.tsig_denom == b.tsig_denom
    &&& a.loop_start_beats == b.loop_start_beats
    &&& a.loop_end_beats == b.loop_end_beats
    &&& a.song_pos_beats == b.song_pos_beats
    &&& a.looping == b.looping
    &&& a.row == b.row
}

impl ProcessData {
    /// Whether the room for events and modulations is what it should be.
    pub open spec fn valid(self) -> bool {
        &&& self.events_in@.len() == MAX_EVENTS
        &&& self.events_out@.len() == MAX_EVENTS
        &&& self.param_mods@.len() == MAX_PARAM_MODS
    }

    /// The events that go in.
    pub open spec fn events(self) -> Seq<Event> {
        self.events_in@.take(
            if self.n_events_in < MAX_EVENTS {
                self.n_events_in as int
            } else {
                MAX_EVENTS as int
            },
        )
    }

    /// The modulations, in the order in which they came.
    pub open spec fn mods(self) -> Seq<ParamMod> {
        Seq::new(self.mod_ring.taken() as nat, |i: int| self.param_mods@[self.mod_ring.place(i)])
    }

    /// Nothing to do: silence, no events, and the clock at the start.
    pub fn empty() -> (r: ProcessData)
        ensures
            r.valid(),
            r.frames == 0,
            r.steady_time == 0,
            r.sample_rate == 48_000,
            r.playing == 0,
            r.n_events_in == 0,
            forall|i: int| 0 <= i < MAX_EVENTS ==> #[trigger] r.events_in@[i] == note_on(0, 0, 0, 0, 0),
            r.n_events_out == 0,
            forall|i: int| 0 <= i < MAX_EVENTS ==> #[trigger] r.events_out@[i] == note_on(0, 0, 0, 0, 0),
            forall|i: int|
                0 <= i < MAX_PARAM_MODS ==> #[trigger] r.param_mods@[i] == (ParamMod { time: 0, param_id: 0, value: 0 }),
            r.mod_ring == (ModRing { count: 0, head: 0, dropped: 0 }),
            is_silence(r.buffer_in@),
            is_silence(r.buffer_out@),
            are_silence(r.buffer_aux_in@, MAX_AUX_IN as nat),
            all_off(r.aux_in_active@, MAX_AUX_IN as nat),
            are_silence(r.buffer_aux_out@, MAX_AUX_OUT as nat),
            all_off(r.aux_out_active@, MAX_AUX_OUT as nat),
            r.bpm == TEMPO_120,
            r.tsig_num == 4,
            r.tsig_denom == 4,
            r.loop_start_beats.bits == 0,
            r.loop_end_beats.bits == 0,
            r.song_pos_beats.bits == 0,
            r.looping == 0,
            r.row == (RowTransport {
                pos_beats: Beat { bits: 0 },
                loop_start_beats: Beat { bits: 0 },
                loop_end_beats: Beat { bits: 0 },
                cell_clip_id: 0,
                silent: 0,
            }),
    {
        ProcessData {
            frames: 0,
            steady_time: 0,
            sample_rate: 48_000,
            playing: 0,
            n_events_in: 0,
            events_in: no_events(),
            n_events_out: 0,
            events_out: no_events(),
            param_mods: no_mods(),
            mod_ring: ModRing { count: 0, head: 0, dropped: 0 },
            buffer_in: silent_buffer(),
            buffer_out: silent_buffer(),
            buffer_aux_in: silent_buffers(MAX_AUX_IN),
            aux_in_active: flags_off(MAX_AUX_IN),
            buffer_aux_out: silent_buffers(MAX_AUX_OUT),
            aux_out_active: flags_off(MAX_AUX_OUT),
            bpm: TEMPO_120,
            tsig_num: 4,
            tsig_denom: 4,
            loop_start_beats: Beat::zero(),
            loop_end_beats: Beat::zero(),
            song_pos_beats: Beat::zero(),
            looping: 0,
            row: RowTransport::default(),
        }
    }

    /// Takes out all events and modulations, before a new block.
    pub fn prepare(&mut self)
        requires
            old(self).valid(),
        ensures
            final(self).valid(),
            same_apart_from_queues(*final(self), *old(self)),
            final(self).events_in@ == old(self).events_in@,
            final(self).param_mods@ == old(self).param_mods@,
            final(self).n_events_in == 0,
            final(self).n_events_out == 0,
            final(self).mod_ring == (ModRing { count: 0, head: 0, dropped: 0 }),
            final(self).events() == Seq::<Event>::empty(),
            final(self).mods() == Seq::<ParamMod>::empty(),
    {
        self.n_events_in = 0;
        self.n_events_out = 0;
        self.mod_ring = ModRing { count: 0, head: 0, dropped: 0 };
        assert(self.events() =~= Seq::<Event>::empty());
        assert(self.mods() =~= Seq::<ParamMod>::empty());
    }

    /// Adds an event. There is nothing to do if there is no room.
    fn push_event(&mut self, event: Event)
        requires
            old(self).valid(),
        ensures
            final(self).valid(),
            same_apart_from_queues(*final(self), *old(self)),
            final(self).n_events_out == old(self).n_events_out,
            final(self).mod_ring == old(self).mod_ring,
            final(self).param_mods@ == old(self).param_mods@,
            old(self).n_events_in < MAX_EVENTS ==> final(self).events() == old(self).events().push(event)
                && final(self).n_events_in == old(self).n_events_in + 1,
            old(self).n_events_in >= MAX_EVENTS ==> final(self).events() == old(self).events()
                && final(self).n_events_in == old(self).n_events_in,
    {
        if self.n_events_in as u64 >= MAX_EVENTS as u64 {
            return;
        }
        let i: usize = self.n_events_in as usize;
        self.events_in.set(i, event);
        self.n_events_in = self.n_events_in + 1;
        assert(self.events() =~= old(self).events().push(event));
    }

    /// Adds a note that starts; nothing if there is no room.
    pub fn push_note_on(&mut self, time: u32, key: u8, velocity: u64, channel: u8, note_id: u32)
        requires
            old(self).valid(),
        ensures
            final(self).valid(),
            same_apart_from_queues(*final(self), *old(self)),
            final(self).n_events_out == old(self).n_events_out,
            final(self).mod_ring == old(self).mod_ring,
            final(self).param_mods@ == old(self).param_mods@,
            old(self).n_events_in < MAX_EVENTS ==> final(self).events() == old(self).events().push(
                note_on(time, key, velocity, channel, note_id),
            ) && final(self).n_events_in == old(self).n_events_in + 1,
            old(self).n_events_in >= MAX_EVENTS ==> final(self).events() == old(self).events()
                && final(self).n_events_in == old(self).n_events_in,
    {
        self.push_event(
            Event { kind: EventKind::NoteOn, time, key, channel, velocity, param_id: 0, note_id, value: 0 },
        );
    }

    /// Adds a note that ends; nothing if there is no room.
    pub fn push_note_off(&mut self, time: u32, key: u8, channel: u8, note_id: u32)
        requires
            old(self).valid(),
        ensures
            final(self).valid(),
            same_apart_from_queues(*final(self), *old(self)),
            final(self).n_events_out == old(self).n_events_out,
            final(self).mod_ring == old(self).mod_ring,
            final(self).param_mods@ == old(self).param_mods@,
            old(self).n_events_in < MAX_EVENTS ==> final(self).events() == old(self).events().push(
                note_off(time, key, channel, note_id),
            ) && final(self).n_events_in == old(self).n_events_in + 1,
            old(self).n_events_in >= MAX_EVENTS ==> final(self).events() == old(self).events()
                && final(self).n_events_in == old(self).n_events_in,
    {
        self.push_event(
            Event { kind: EventKind::NoteOff, time, key, channel, velocity: 0, param_id: 0, note_id, value: 0 },
        );
    }

    /// Adds the value of a parameter; nothing if there is no room.
    pub fn push_param(&mut self, time: u32, param_id: u32, value: u64)
        requires
            old(self).valid(),
        ensures
            final(self).valid(),
            same_apart_from_queues(*final(self), *old(self)),
            final(self).n_events_out == old(self).n_events_out,
            final(self).mod_ring == old(self).mod_ring,
            final(self).param_mods@ == old(self).param_mods@,
            old(self).n_events_in < MAX_EVENTS ==> final(self).events() == old(self).events().push(
                param_value(time, param_id, value),
            ) && final(self).n_events_in == old(self).n_events_in + 1,
            old(self).n_events_in >= MAX_EVENTS ==> final(self).events() == old(self).events()
                && final(self).n_events_in == old(self).n_events_in,
    {
        self.push_event(
            Event {
                kind: EventKind::ParamValue,
                time,
                key: 0,
                channel: 0,
                velocity: 0,
                param_id,
                note_id: 0,
                value,
            },
        );
    }

    /// Adds a modulation. If there is no room, the oldest makes room for it; the
    /// events are left alone.
    pub fn push_param_mod(&mut self, time: u32, param_id: u32, offset_norm: u64)
        requires
            old(self).valid(),
        ensures
            final(self).valid(),
            same_apart_from_queues(*final(self), *old(self)),
            final(self).n_events_in == old(self).n_events_in,
            final(self).events_in@ == old(self).events_in@,
            final(self).n_events_out == old(self).n_events_out,
            old(self).mod_ring.taken() < MAX_PARAM_MODS ==> final(self).mods() == old(self).mods().push(
                ParamMod { time, param_id, value: offset_norm },
            ) && final(self).mod_ring.dropped == old(self).mod_ring.dropped,
            old(self).mod_ring.taken() == MAX_PARAM_MODS ==> final(self).mods() == old(self).mods().drop_first().push(
                ParamMod { time, param_id, value: offset_norm },
            ) && final(self).mod_ring.dropped == if old(self).mod_ring.dropped == u32::MAX {
                u32::MAX as int
            } else {
                old(self).mod_ring.dropped + 1
            },
    {
        let ghost before = *self;
        let slot: usize = self.mod_ring.push();
        let m = ParamMod { time, param_id, value: offset_norm };
        self.param_mods.set(slot, m);
        proof {
            let cap = MAX_PARAM_MODS as int;
            let head = before.mod_ring.head as int;
            let n = before.mod_ring.taken();
            if n < cap {
                assert forall|i: int| 0 <= i < n implies self.param_mods@[self.mod_ring.place(i)] == #[trigger] before.mods()[i] by {
                    lemma_places_apart(head, i, n);
                }
                assert(self.mods() =~= before.mods().push(m));
            } else {
                assert forall|i: int| 0 <= i < cap - 1 implies self.param_mods@[self.mod_ring.place(i)]
                    == #[trigger] before.mods().drop_first()[i] by {
                    lemma_places_apart(head, 0, i + 1);
                    lemma_next_place(head, i);
                }
                lemma_next_place(head, cap - 1);
                assert(self.mod_ring.place(cap - 1) == before.mod_ring.place(0)) by {
                    assert((head + cap) % cap == head % cap);
                }
                assert(self.mods() =~= before.mods().drop_first().push(m));
            }
        }
    }

    /// The modulations, in the order in which they came.
    pub fn param_mods_iter(&self) -> (r: Vec<ParamMod>)
        requires
            self.valid(),
        ensures
            r@ == self.mods(),
    {
        let n: usize = self.mod_ring.len();
        let mut r: Vec<ParamMod> = Vec::new();
        let mut i: usize = 0;
        while i < n
            invariant
                self.valid(),
                n == self.mod_ring.taken(),
                i <= n,
                r@.len() == i,
                forall|k: int| 0 <= k < i ==> #[trigger] r@[k] == self.mods()[k],
            decreases n - i,
        {
            r.push(self.param_mods[self.mod_ring.slot(i)]);
            i += 1;
        }
        assert(r@ =~= self.mods());
        r
    }
}

proof fn lemma_places_apart(head: int, i: int, j: int)
    requires
        0 <= head,
        0 <= i < j < MAX_PARAM_MODS,
    ensures
        (head + i) % (MAX_PARAM_MODS as int) != (head + j) % (MAX_PARAM_MODS as int),
{
}

proof fn lemma_next_place(head: int, i: int)
    requires
        0 <= head,
        0 <= i,
    ensures
        ((head + 1) % (MAX_PARAM_MODS as int) + i) % (MAX_PARAM_MODS as int) == (head + i + 1) % (MAX_PARAM_MODS as int),
{
}

} // verus!
