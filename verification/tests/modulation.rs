use common::modulators::{
    elapsed_beats, elapsed_secs, mseg_locate, random_parts, reseed, step_index, steps_active_index, steps_per_round, AdsrConfig,
    GenParams, LfoConfig, LfoShape, ModSourceKind, ModTime, MsegAt, RetriggerMode, StepsDirection,
};
use common::beat::Beat;
use common::onset::{averaged_over, can_have_onsets, hop_len, min_gap_frames, pick_onsets};
use common::setting::Setting;
use common::truepeak::{phases_for, TruePeakMeter};

#[test]
fn steps_go_their_way() {
    let fwd: Vec<usize> = (0..4).map(|k| steps_active_index(StepsDirection::Forward, k, 4)).collect();
    assert_eq!(fwd, [0, 1, 2, 3]);
    let bwd: Vec<usize> = (0..4).map(|k| steps_active_index(StepsDirection::Backward, k, 4)).collect();
    assert_eq!(bwd, [3, 2, 1, 0]);
    let pp: Vec<usize> = (0..6).map(|k| steps_active_index(StepsDirection::PingPong, k, 4)).collect();
    assert_eq!(pp, [0, 1, 2, 3, 2, 1]);
    assert_eq!(steps_per_round(StepsDirection::PingPong, 4), 6);
    assert_eq!(steps_per_round(StepsDirection::Forward, 4), 4);
}

#[test]
fn steps_repeat_before_the_start_as_behind_it() {
    for k in -12..12 {
        assert_eq!(
            step_index(StepsDirection::PingPong, k, 4),
            step_index(StepsDirection::PingPong, k + 6, 4),
            "k={k}"
        );
    }
    assert_eq!(step_index(StepsDirection::Forward, -1, 4), 3);
    assert_eq!(steps_active_index(StepsDirection::Forward, 5, 0), 0);
    assert_eq!(steps_active_index(StepsDirection::PingPong, 5, 1), 0);
}

#[test]
fn numbers_are_drawn_again_from_the_same_seed() {
    assert_eq!(random_parts(0, 0), 0xe220_a839_7b1d_cdaf >> 11);
    assert_eq!(random_parts(1, 5), random_parts(1, 5));
    assert_ne!(random_parts(1, 5), random_parts(2, 5));
    assert_ne!(reseed(1), reseed(2));
    assert_eq!(random_parts(u64::MAX, -1), random_parts(0, 0));
    assert_eq!(reseed(0xd1b5_4a32_d192_ed03), 0xe220_a839_7b1d_cdaf);
}

#[test]
fn positions_are_found_between_points() {
    let s = |x: f32| Setting { bits: x.to_bits() };
    let times = vec![s(0.0), s(0.5), s(1.0)];
    assert_eq!(mseg_locate(&Vec::new(), s(0.5)), MsegAt::Nowhere);
    assert_eq!(mseg_locate(&times, s(0.25)), MsegAt::Segment(0));
    assert_eq!(mseg_locate(&times, s(0.75)), MsegAt::Segment(1));
    assert_eq!(mseg_locate(&times, s(-1.0)), MsegAt::Point(0));
    assert_eq!(mseg_locate(&times, s(9.0)), MsegAt::Point(2));
}

fn settings(v: &[f32]) -> Vec<Setting> {
    v.iter().map(|x| Setting { bits: x.to_bits() }).collect()
}

#[test]
fn onsets_are_rises_that_stand_out() {
    let rises = settings(&[9.0, 0.0, 5.0, 1.0, 6.0, 0.0, 0.0, 7.0, 7.0, 9.0]);
    let level = settings(&[2.0; 10]);
    assert_eq!(pick_onsets(&rises, &level, 64, 1), vec![0, 128, 256, 448]);
    assert_eq!(pick_onsets(&rises, &level, 64, 3), vec![0, 128, 448], "too close to the one before");
    assert_eq!(pick_onsets(&Vec::new(), &Vec::new(), 64, 3), vec![0]);
    let nan = settings(&[0.0, f32::NAN, 0.0]);
    assert_eq!(pick_onsets(&nan, &settings(&[0.0; 3]), 64, 1), vec![0]);
}

#[test]
fn stretches_follow_the_sample_rate() {
    assert_eq!((hop_len(48_000), hop_len(8_000)), (240, 64));
    assert_eq!((min_gap_frames(48_000), min_gap_frames(0)), (6, 1));
    assert!(can_have_onsets(720, 48_000) && !can_have_onsets(719, 48_000) && !can_have_onsets(999, 0));
    assert_eq!(averaged_over(0, 10), (0, 4));
    assert_eq!(averaged_over(9, 10), (5, 10));
    assert_eq!(averaged_over(1000, 4096), (936, 1064));
}

#[test]
fn meters_hold_the_highest_peak_and_where_it_was() {
    let s = |x: f32| Setting { bits: x.to_bits() };
    let mut m = TruePeakMeter::new();
    assert_eq!(m.max_frame(), None);
    m.process(&settings(&[0.1, 0.5, 0.5, 0.2]));
    assert_eq!((m.block_peak, m.max_peak, m.max_frame()), (s(0.5), s(0.5), Some(1)));
    m.set_running(false);
    m.process(&settings(&[0.9]));
    assert_eq!((m.block_peak, m.max_peak, m.frames_seen), (s(0.9), s(0.5), 5), "standing by");
    m.set_running(true);
    m.process(&settings(&[0.2, 0.8]));
    assert_eq!((m.max_peak, m.max_frame()), (s(0.8), Some(6)));
    m.reset_max();
    assert_eq!((m.max_frame(), m.frames_seen, m.running), (None, 0, true));
    assert_eq!([phases_for(48_000), phases_for(96_000), phases_for(192_000)], [4, 2, 0]);
}

fn moment() -> ModTime {
    let b = |x: f64| Beat { bits: x.to_bits() };
    ModTime {
        beat: b(8.0),
        secs: b(4.0),
        beats_from_anchor: b(6.0),
        beats_from_note: b(3.0),
        secs_from_anchor: b(1.5),
        secs_from_release: Some(b(0.5)),
    }
}

#[test]
fn the_time_of_a_generator_starts_where_it_says() {
    let b = |x: f64| Beat { bits: x.to_bits() };
    let from = RetriggerMode::FromBeat { anchor_beat: b(2.0) };
    let t = moment();
    let elapsed = |r: RetriggerMode| (elapsed_beats(t, r), elapsed_secs(t, r));
    assert_eq!(elapsed(RetriggerMode::FreeRun), (b(8.0), b(4.0)));
    assert_eq!(elapsed(from), (b(6.0), b(1.5)));
    assert_eq!(elapsed(RetriggerMode::Note), (b(3.0), b(1.5)));
    let released = |t: ModTime, r: RetriggerMode| GenParams::from_config(&ModSourceKind::Mseg, b(0.0), t, r).released_secs;
    assert_eq!(released(t, RetriggerMode::Note), Some(b(0.5)));
    assert_eq!(released(t, from), None);
    assert_eq!(released(ModTime { secs_from_release: Some(b(-0.1)), ..t }, RetriggerMode::Note), None, "not yet");
    assert_eq!(released(ModTime { secs_from_release: None, ..t }, RetriggerMode::Note), None);
}

#[test]
fn generators_are_evaluated_with_their_own_settings() {
    let s = |x: f32| Setting { bits: x.to_bits() };
    let of = |kind: &ModSourceKind| {
        GenParams::from_config(kind, Beat { bits: 2.5f64.to_bits() }, moment(), RetriggerMode::FreeRun)
    };
    let lfo = LfoConfig {
        shape: LfoShape::Pulse { width: s(0.25) },
        phase: s(0.1),
        shape_amt: s(0.7),
        jitter: s(0.2),
        smooth: s(0.3),
    };
    let p = of(&ModSourceKind::Lfo(lfo));
    assert_eq!((p.pulse_width, p.lfo_phase, p.lfo_shape_amt, p.lfo_jitter), (s(0.25), s(0.1), s(0.7), s(0.2)));
    assert_eq!((p.cycle_pos, p.elapsed_beats), (Beat { bits: 2.5f64.to_bits() }, moment().beat));
    assert_eq!((p.lfo_smooth, p.random_smooth, p.steps_slew), (s(0.3), s(0.0), s(0.0)));
    let sine = ModSourceKind::Lfo(LfoConfig { shape: LfoShape::Sine, ..lfo });
    assert_eq!(of(&sine).pulse_width, s(0.5));
    let random = of(&ModSourceKind::Random { seed: 1, smooth: s(0.4) });
    assert_eq!((random.random_smooth, random.lfo_shape_amt), (s(0.4), s(0.5)));
    let adsr = AdsrConfig { attack_ms: s(1.0), decay_ms: s(2.0), sustain: s(0.5), release_ms: s(4.0) };
    assert_eq!(of(&ModSourceKind::Adsr(adsr)).adsr, adsr);
    let steps = ModSourceKind::Steps { direction: StepsDirection::Forward, slew: s(0.6) };
    assert_eq!(of(&steps).steps_slew, s(0.6));
}
