use common::model::{
    ChannelStrip, CompMode, CompParam, CompSettings, EqBand, EqParam, EqSettings, ParamRange, StripTarget,
};
use common::setting::Setting;

fn s(x: f32) -> Setting {
    Setting { bits: x.to_bits() }
}

#[test]
fn the_detector_filter_is_off_at_its_left_end() {
    let r = CompParam::ScFreq.range();
    assert_eq!(r.clamp(s(5.0)), s(0.0));
    assert_eq!(r.clamp(s(20_000.0)), s(16_000.0));
    assert_eq!(r.clamp(s(400.0)), s(400.0));
    assert!(!r.is_affine());
}

#[test]
fn modes_override_what_sounds_and_leave_the_knobs() {
    let mut c = CompSettings { ratio: s(3.0), attack_ms: s(25.0), release_ms: s(800.0), ..CompSettings::default() };
    c.mode = CompMode::Leveler;
    assert_eq!(c.effective(), (s(2.0), s(25.0), s(100.0)));
    c.mode = CompMode::Limiter;
    assert_eq!(c.effective(), (s(20.0), s(0.1), s(800.0)));
    c.mode = CompMode::Compressor;
    assert_eq!(c.effective(), (s(3.0), s(25.0), s(800.0)));
    assert_eq!((c.ratio, c.attack_ms, c.release_ms), (s(3.0), s(25.0), s(800.0)));
}

#[test]
fn a_strip_changes_nothing_at_first() {
    assert!(ChannelStrip::default().is_bypassed());
}

#[test]
fn values_are_kept_within_their_ranges() {
    let mut strip = ChannelStrip::default();
    let gain = StripTarget::Eq { band: EqBand::Hmf, param: EqParam::Gain };
    assert!(strip.set_target_value(&gain, s(99.0)));
    assert_eq!(strip.target_value(&gain), Some(s(15.0)));
    assert!(strip.set_target_value(&StripTarget::CompOn, s(1.0)));
    assert_eq!(strip.target_value(&StripTarget::CompOn), Some(s(1.0)));
    assert!(!strip.is_bypassed());
    assert_eq!(strip.target_value(&StripTarget::Elsewhere), None);
    assert!(!strip.set_target_value(&StripTarget::Elsewhere, s(1.0)));
}

#[test]
fn every_band_is_its_own() {
    let mut eq = EqSettings::default();
    for band in [EqBand::Lf, EqBand::Lmf, EqBand::Hmf, EqBand::Hf] {
        let before = *eq.band(band);
        eq.band_mut(band).gain_db = s(3.5);
        assert_eq!(eq.band(band).freq_hz, before.freq_hz);
        assert_eq!(eq.param(band, EqParam::Gain), s(3.5));
        let (lo, hi) = band.freq_range().display_range();
        assert!(f32::from_bits(lo.bits) < f32::from_bits(hi.bits));
    }
    assert!(matches!(EqParam::Gain.range(EqBand::Hf), ParamRange::Linear { .. }));
    assert!(EqBand::Lmf.has_q_knob() && !EqBand::Lf.has_q_knob());
    assert_eq!(EqBand::Hmf.label(), "HMF");
    assert_eq!(CompMode::Leveler.label(), "LEV");
}

#[test]
fn bands_modes_and_ranges_tell_what_they_have() {
    assert!(EqBand::Lf.has_bell_switch() && EqBand::Hf.has_bell_switch());
    assert!(!EqBand::Hp.has_bell_switch());
    assert!(CompMode::Leveler.overrides(CompParam::Ratio) && CompMode::Leveler.overrides(CompParam::Release));
    assert!(CompMode::Limiter.overrides(CompParam::Attack) && !CompMode::Limiter.overrides(CompParam::Ratio));
    assert!(!CompMode::Compressor.overrides(CompParam::Ratio));
    assert!(!CompParam::ScFreq.range().is_invertible());
    assert!(CompParam::Ratio.range().is_invertible());
}
