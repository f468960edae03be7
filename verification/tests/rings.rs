use common::beat::Beat;
use common::process_data::{EventKind, ProcessData, RowTransport, ARRANGER_CELL_ID, MAX_EVENTS, MAX_FRAMES, MAX_PARAM_MODS};
use common::sampler_ring::{
    ring_capacity, shmem_size, RingOverrun, SamplerRingHandle, SegmentInfo, HEADER_SIZE, MAX_SECONDS, SEGMENTS,
};
use common::scope_bridge::{max_read_frames, ScopeBridgeHandle, SCOPE_FRAMES};

fn bits(v: &[f32]) -> Vec<u32> {
    v.iter().map(|x| x.to_bits()).collect()
}

fn frame(l: f32, r: f32) -> (u32, u32) {
    (l.to_bits(), r.to_bits())
}

// ---------------------------------------------------------------------------
// The scope
// ---------------------------------------------------------------------------

#[test]
fn write_then_read_round_trips_in_order() {
    let mut h = ScopeBridgeHandle::new();
    let mut r = h.reader();
    h.write_block(&bits(&[0.1, 0.2, 0.3]), &bits(&[-0.1, -0.2, -0.3]));
    let mut out = Vec::new();
    let o = r.read(&h, &mut out);
    assert_eq!(o.frames, 3);
    assert_eq!(o.dropped, 0);
    assert_eq!(out, vec![frame(0.1, -0.1), frame(0.2, -0.2), frame(0.3, -0.3)]);
}

#[test]
fn read_without_new_frames_returns_nothing() {
    let mut h = ScopeBridgeHandle::new();
    let mut r = h.reader();
    h.write_block(&bits(&[1.0]), &bits(&[1.0]));
    let mut out = Vec::new();
    r.read(&h, &mut out);
    out.clear();
    let o = r.read(&h, &mut out);
    assert_eq!(o.frames, 0);
    assert!(out.is_empty());
}

#[test]
fn reader_starts_at_current_write_position() {
    let mut h = ScopeBridgeHandle::new();
    h.write_block(&bits(&[1.0, 2.0]), &bits(&[1.0, 2.0]));
    let mut r = h.reader();
    let mut out = Vec::new();
    assert_eq!(r.read(&h, &mut out).frames, 0);
    h.write_block(&bits(&[3.0]), &bits(&[3.0]));
    assert_eq!(r.read(&h, &mut out).frames, 1);
    assert_eq!(out, vec![frame(3.0, 3.0)]);
}

#[test]
fn overrun_drops_the_oldest_frames_and_reports_it() {
    let mut h = ScopeBridgeHandle::new();
    h.set_sample_rate(48_000);
    let mut r = h.reader();
    let block = bits(&vec![0.5_f32; 4096]);
    let writes = SCOPE_FRAMES / block.len() + 2;
    for _ in 0..writes {
        h.write_block(&block, &block);
    }
    let total = (writes * block.len()) as u64;
    let cap = max_read_frames(48_000);
    let mut out = Vec::new();
    let o = r.read(&h, &mut out);
    assert_eq!(o.frames, cap);
    assert_eq!(o.dropped, total - cap as u64);
    assert_eq!(out.len(), cap);
}

#[test]
fn the_read_cap_follows_the_sample_rate() {
    assert_eq!(max_read_frames(48_000), 48_000);
    assert_eq!(max_read_frames(192_000), 192_000.min(SCOPE_FRAMES));
    assert_eq!(max_read_frames(0), 48_000);

    let mut h = ScopeBridgeHandle::new();
    h.set_sample_rate(192_000);
    let mut r = h.reader();
    let block = bits(&vec![0.25_f32; 48_000]);
    h.write_block(&block, &block);
    let mut out = Vec::new();
    let o = r.read(&h, &mut out);
    assert_eq!(o.dropped, 0);
    assert_eq!(o.frames, 48_000);
}

#[test]
fn wrapping_preserves_the_newest_samples() {
    let mut h = ScopeBridgeHandle::new();
    let mut r = h.reader();
    let filler = bits(&vec![0.0_f32; SCOPE_FRAMES]);
    h.write_block(&filler, &filler);
    let mut out = Vec::new();
    r.read(&h, &mut out);
    out.clear();
    h.write_block(&bits(&[7.0, 8.0, 9.0]), &bits(&[-7.0, -8.0, -9.0]));
    let o = r.read(&h, &mut out);
    assert_eq!(o.frames, 3);
    assert_eq!(out, vec![frame(7.0, -7.0), frame(8.0, -8.0), frame(9.0, -9.0)]);
}

#[test]
fn empty_block_is_a_noop() {
    let mut h = ScopeBridgeHandle::new();
    h.write_block(&[], &[]);
    assert_eq!(h.write_frames(), 0);
}

#[test]
fn mismatched_channel_lengths_use_the_shorter_one() {
    let mut h = ScopeBridgeHandle::new();
    let mut r = h.reader();
    h.write_block(&bits(&[1.0, 2.0, 3.0]), &bits(&[1.0, 2.0]));
    let mut out = Vec::new();
    assert_eq!(r.read(&h, &mut out).frames, 2);
}

// ---------------------------------------------------------------------------
// The sampler
// ---------------------------------------------------------------------------

fn ring(seconds: u32, rate: u32) -> SamplerRingHandle {
    SamplerRingHandle::new(ring_capacity(seconds, rate) as usize, rate)
}

#[test]
fn write_then_read_range_roundtrip() {
    let mut h = ring(1, 100);
    let l: Vec<f32> = (0..10).map(|i| i as f32).collect();
    let r: Vec<f32> = (0..10).map(|i| -(i as f32)).collect();
    h.write_block(&bits(&l), &bits(&r));
    h.write_block(&bits(&l), &bits(&r));
    assert_eq!(h.write_frames(), 20);
    let mut out = Vec::new();
    h.read_range(5, 15, &mut out).unwrap();
    assert_eq!(out.len(), 10);
    assert_eq!(out[0], frame(5.0, -5.0));
    assert_eq!(out[5], frame(0.0, -0.0));
    assert_eq!(h.read_frame(6), frame(6.0, -6.0));
}

#[test]
fn read_range_fails_after_overwrite() {
    let mut h = ring(1, 4096);
    let block = bits(&vec![1.0f32; 3000]);
    h.write_block(&block, &block);
    h.write_block(&block, &block);
    let guard = MAX_FRAMES as u64;
    assert_eq!(h.oldest_frame(), 1904);
    assert_eq!(h.safe_oldest_frame(), 1904 + guard);
    let mut out = Vec::new();
    assert_eq!(h.read_range(0, 10, &mut out), Err(RingOverrun));
    assert_eq!(h.read_range(1904, 2000, &mut out), Err(RingOverrun));
    assert!(out.is_empty());
    assert!(h.read_range(1904 + guard, 6000, &mut out).is_ok());
    assert_eq!(out.len() as u64, 6000 - 1904 - guard);
    assert_eq!(h.read_range(5000, 6100, &mut Vec::new()), Err(RingOverrun));
    assert_eq!(RingOverrun.message(), "選択した範囲はもうリングに残っていません");
}

#[test]
fn reader_follows_write_and_skips_to_oldest_after_wrap() {
    let mut h = ring(1, 100);
    let mut rd = h.reader();
    let block = bits(&vec![0.5f32; 30]);
    h.write_block(&block, &block);
    let mut out = Vec::new();
    assert_eq!(rd.read(&h, 1000, &mut out), (0, 30));
    for _ in 0..5 {
        h.write_block(&block, &block);
    }
    out.clear();
    let (start, n) = rd.read(&h, 1000, &mut out);
    assert_eq!((start, n), (80, 100));
    h.write_block(&block, &block);
    out.clear();
    assert_eq!(rd.read(&h, 10, &mut out), (200, 10));
}

#[test]
fn segments_come_back_oldest_first_with_stopped_sentinel() {
    let mut h = ring(1, 100);
    let bpm = |x: f32| x.to_bits();
    let first = SegmentInfo { ring_frame: 0, wall_ns: 10, playhead_beat: None, bpm_bits: bpm(120.0) };
    let second = SegmentInfo {
        ring_frame: 50,
        wall_ns: 20,
        playhead_beat: Some(Beat { bits: 7.5f64.to_bits() }),
        bpm_bits: bpm(90.0),
    };
    h.push_segment(first);
    h.push_segment(second);
    let out = h.segments();
    assert_eq!(out.len(), 2);
    assert_eq!(out[0].playhead_beat, None);
    assert_eq!(out[1], second);
    assert_eq!(h.segment_count(), 2);
}

#[test]
fn only_one_position_stands_for_standing_still() {
    let mut h = ring(1, 100);
    let at = |bits: u64| SegmentInfo { ring_frame: 0, wall_ns: 0, playhead_beat: Some(Beat { bits }), bpm_bits: 0 };
    h.push_segment(at(f64::NAN.to_bits()));
    h.push_segment(at(u64::MAX));
    let out = h.segments();
    assert_eq!(out[0], at(f64::NAN.to_bits()));
    assert_eq!(out[1].playhead_beat, None);
}

#[test]
fn open_reads_capacity_from_header() {
    let mut a = ring(2, 100);
    assert_eq!(a.capacity(), 200);
    assert_eq!(a.sample_rate(), 100);
    assert!(!a.paused());
    a.set_paused(true);
    assert!(a.paused());
}

#[test]
fn old_segments_make_room_for_new_ones() {
    let mut h = ring(1, 100);
    for i in 0..SEGMENTS as u64 + 3 {
        h.push_segment(SegmentInfo { ring_frame: i, wall_ns: i, playhead_beat: None, bpm_bits: 0 });
    }
    let out = h.segments();
    assert_eq!(out.len(), SEGMENTS);
    assert_eq!((out[0].ring_frame, out[SEGMENTS - 1].ring_frame), (3, SEGMENTS as u64 + 2));
}

#[test]
fn a_ring_is_never_empty_and_never_too_long() {
    assert_eq!(ring_capacity(0, 0), 48_000);
    assert_eq!(ring_capacity(0, 1), 1);
    assert_eq!(ring_capacity(MAX_SECONDS + 1, 48_000), MAX_SECONDS as u64 * 48_000);
    assert_eq!(shmem_size(100), Some(HEADER_SIZE + 800));
    assert_eq!(shmem_size(usize::MAX), None);
}

// ---------------------------------------------------------------------------
// Process data
// ---------------------------------------------------------------------------

#[test]
fn modulations_that_do_not_fit_push_out_the_oldest() {
    let mut pd = ProcessData::empty();
    pd.prepare();
    for i in 0..(MAX_PARAM_MODS + 3) {
        pd.push_param_mod(i as u32, 1, (i as f64).to_bits());
    }
    assert_eq!(pd.mod_ring.count as usize, MAX_PARAM_MODS);
    assert_eq!(pd.mod_ring.dropped, 3);
    let got: Vec<f64> = pd.param_mods_iter().iter().map(|m| f64::from_bits(m.value)).collect();
    assert_eq!(got.len(), MAX_PARAM_MODS);
    assert_eq!(got[0], 3.0);
    assert_eq!(got[MAX_PARAM_MODS - 1], (MAX_PARAM_MODS + 2) as f64);
    pd.prepare();
    assert_eq!(pd.param_mods_iter().len(), 0);
    assert_eq!(pd.mod_ring.head, 0);
}

#[test]
fn modulations_take_no_room_from_events() {
    let mut pd = ProcessData::empty();
    pd.prepare();
    for i in 0..MAX_PARAM_MODS {
        pd.push_param_mod(0, i as u32, 0.5f64.to_bits());
    }
    assert_eq!(pd.n_events_in, 0);
    pd.push_note_on(0, 60, 1.0f64.to_bits(), 0, 1);
    assert_eq!(pd.n_events_in, 1);
}

#[test]
fn events_that_do_not_fit_are_dropped() {
    let mut pd = ProcessData::empty();
    for i in 0..MAX_EVENTS as u32 + 5 {
        pd.push_note_off(i, 60, 0, 1);
    }
    assert_eq!(pd.n_events_in as usize, MAX_EVENTS);
    assert_eq!(pd.events_in[0].kind, EventKind::NoteOff);
    assert_eq!(pd.events_in[MAX_EVENTS - 1].time, MAX_EVENTS as u32 - 1);
    pd.prepare();
    assert_eq!(pd.n_events_in, 0);
    pd.push_param(7, 9, 0.25f64.to_bits());
    assert_eq!((pd.events_in[0].kind, pd.events_in[0].param_id), (EventKind::ParamValue, 9));
}

#[test]
fn rows_tell_who_plays_them() {
    let row = RowTransport::default();
    assert!(row.is_arrangement() && !row.is_silent() && !row.has_loop());
    assert_eq!(row.cell_clip_id, ARRANGER_CELL_ID);
    let end = Beat { bits: 4.0f64.to_bits() };
    let row = RowTransport { cell_clip_id: 3, silent: 1, loop_end_beats: end, ..row };
    assert!(!row.is_arrangement() && row.is_silent() && row.has_loop());
    assert!(!RowTransport { loop_start_beats: end, ..row }.has_loop());
}
