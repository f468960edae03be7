use common::beat::Beat;
use common::model::{Clip, Song, Track};
use common::timing::{effective_loop_bounds, song_bounds_samples, song_ended, ClipSamples, LoopSamples};

fn beat(v: f64) -> Beat {
    Beat { bits: v.to_bits() }
}

fn clip(start: f64, length: f64) -> Clip {
    Clip {
        start_beat: beat(start),
        length_beats: beat(length),
        end_beat: beat(start + length),
        id: 1,
        content_id: 0,
        content_offset_beats: beat(0.0),
        xfade_lead_beats: beat(0.0),
        xfade_tail_beats: beat(0.0),
        muted: false,
    }
}

/// A song of one clip on each track, and the samples it makes.
fn song(bpm: f64, clips: &[(f64, f64)], rate: f64) -> (Song, ClipSamples) {
    let per_beat = rate * 60.0 / bpm;
    let mut song = Song::default();
    let mut samples = ClipSamples { has_tempo: bpm > 0.0, clips: vec![] };
    for &(start, length) in clips {
        song.tracks.push(Track { clips: vec![clip(start, length)], ..Track::default() });
        samples.clips.push(vec![((start * per_beat).max(0.0) as u64, (length * per_beat) as u64)]);
    }
    (song, samples)
}

fn nothing() -> ClipSamples {
    ClipSamples { has_tempo: true, clips: vec![] }
}

fn no_range() -> LoopSamples {
    LoopSamples { start_beat: beat(0.0), end_beat: beat(0.0), start: 0, end: 0 }
}

#[test]
fn bounds_none_for_no_song() {
    assert_eq!(song_bounds_samples(None, &nothing()), None);
}

#[test]
fn bounds_none_for_empty_tracks() {
    assert_eq!(song_bounds_samples(Some(&Song::default()), &nothing()), None);
}

#[test]
fn bounds_none_for_zero_bpm() {
    let (song, samples) = song(0.0, &[(0.0, 4.0)], 48000.0);
    assert_eq!(song_bounds_samples(Some(&song), &samples), None);
}

#[test]
fn bounds_none_for_zero_length_clip() {
    let (song, samples) = song(120.0, &[(0.0, 0.0)], 48000.0);
    assert_eq!(song_bounds_samples(Some(&song), &samples), None);
}

#[test]
fn bounds_standard_clip() {
    let (song, samples) = song(120.0, &[(0.0, 4.0)], 48000.0);
    assert_eq!(song_bounds_samples(Some(&song), &samples), Some((0, 96_000)));
}

#[test]
fn bounds_with_offset() {
    let (song, samples) = song(120.0, &[(2.0, 4.0)], 48000.0);
    assert_eq!(song_bounds_samples(Some(&song), &samples), Some((48_000, 144_000)));
}

#[test]
fn bounds_spans_multiple_tracks() {
    let (song, samples) = song(120.0, &[(0.0, 4.0), (6.0, 2.0)], 48000.0);
    assert_eq!(song_bounds_samples(Some(&song), &samples), Some((0, 192_000)));
}

#[test]
fn bounds_skip_clips_without_a_place() {
    let (song, samples) = song(120.0, &[(f64::NAN, 4.0), (2.0, f64::INFINITY), (2.0, 4.0)], 48000.0);
    assert_eq!(song_bounds_samples(Some(&song), &samples), Some((48_000, 144_000)));
}

#[test]
fn song_ended_never_triggers_with_no_song() {
    assert!(!song_ended(None, &nothing(), 0));
    assert!(!song_ended(None, &nothing(), u64::MAX));
}

#[test]
fn song_ended_after_final_clip_end() {
    let (song, samples) = song(120.0, &[(0.0, 4.0)], 48000.0);
    assert!(!song_ended(Some(&song), &samples, 95_999));
    assert!(song_ended(Some(&song), &samples, 96_000));
    assert!(song_ended(Some(&song), &samples, 96_001));
}

#[test]
fn song_ended_treats_zero_length_as_not_ended() {
    let (song, samples) = song(120.0, &[(0.0, 0.0)], 48000.0);
    assert!(!song_ended(Some(&song), &samples, 1_000_000));
}

#[test]
fn a_range_that_was_set_is_looped() {
    let (song, samples) = song(120.0, &[(0.0, 4.0)], 48000.0);
    let range = LoopSamples { start_beat: beat(1.0), end_beat: beat(2.0), start: 24_000, end: 48_000 };
    assert_eq!(effective_loop_bounds(Some(&song), range, &samples), Some((24_000, 48_000)));
    assert_eq!(effective_loop_bounds(Some(&song), no_range(), &samples), Some((0, 96_000)));
    assert_eq!(effective_loop_bounds(None, range, &nothing()), None);
}
