//! The built-in compressor and equaliser: their settings, and what each of them
//! may be.

use crate::setting::Setting;
use vstd::prelude::*;

verus! {

/// The six stages of the equaliser.
#[derive(Clone, Copy, Debug, PartialEq, Eq, Hash, Structural)]
pub enum EqBand {
    /// High-pass filter.
    Hp,
    /// Low-pass filter.
    Lp,
    /// Low shelf, or bell.
    Lf,
    /// Low-mid bell with its own Q.
    Lmf,
    /// High-mid bell with its own Q.
    Hmf,
    /// High shelf, or bell.
    Hf,
}

/// The label of a band on the strip.
pub open spec fn band_label(band: EqBand) -> Seq<char> {
    match band {
        EqBand::Hp => "HP"@,
        EqBand::Lp => "LP"@,
        EqBand::Lf => "LF"@,
        EqBand::Lmf => "LMF"@,
        EqBand::Hmf => "HMF"@,
        EqBand::Hf => "HF"@,
    }
}

impl EqBand {
    /// Whether the strip shows a Q knob for this band: the two mid bands only.
    pub fn has_q_knob(self) -> (r: bool)
        ensures
            r == (self == EqBand::Lmf || self == EqBand::Hmf),
    {
        matches!(self, EqBand::Lmf | EqBand::Hmf)
    }

    /// Whether this band switches between shelf and bell: the two outer bands only.
    pub fn has_bell_switch(self) -> (r: bool)
        ensures
            r == (self == EqBand::Lf || self == EqBand::Hf),
    {
        matches!(self, EqBand::Lf | EqBand::Hf)
    }

    /// The short label on the strip.
    pub fn label(self) -> (r: &'static str)
        ensures
            r@ == band_label(self),
    {
        match self {
            EqBand::Hp => "HP",
            EqBand::Lp => "LP",
            EqBand::Lf => "LF",
            EqBand::Lmf => "LMF",
            EqBand::Hmf => "HMF",
            EqBand::Hf => "HF",
        }
    }
}

/// The continuous parameters of one band.
#[derive(Clone, Copy, Debug, PartialEq, Eq, Hash, Structural)]
pub enum EqParam {
    Freq,
    Gain,
    Q,
}

/// Whether a band has a parameter: every band has a frequency, all but the two
/// filters a gain, and the two mid bands a Q.
pub open spec fn band_has_param(band: EqBand, param: EqParam) -> bool {
    match param {
        EqParam::Freq => true,
        EqParam::Gain => band != EqBand::Hp && band != EqBand::Lp,
        EqParam::Q => band == EqBand::Lmf || band == EqBand::Hmf,
    }
}

impl EqBand {
    /// Whether this band has a parameter, see [`band_has_param`].
    pub fn has_param(self, param: EqParam) -> (r: bool)
        ensures
            r == band_has_param(self, param),
    {
        match param {
            EqParam::Freq => true,
            EqParam::Gain => !matches!(self, EqBand::Hp | EqBand::Lp),
            EqParam::Q => self.has_q_knob(),
        }
    }
}

/// The continuous parameters of the compressor.
#[derive(Clone, Copy, Debug, PartialEq, Eq, Hash, Structural)]
pub enum CompParam {
    Threshold,
    Ratio,
    Attack,
    Release,
    /// Make-up gain.
    Makeup,
    /// Centre frequency of the detector filter.
    ScFreq,
}

/// The label of a compressor parameter on the strip.
pub open spec fn comp_param_label(param: CompParam) -> Seq<char> {
    match param {
        CompParam::Threshold => "Thr"@,
        CompParam::Ratio => "Rat"@,
        CompParam::Attack => "Atk"@,
        CompParam::Release => "Rel"@,
        CompParam::Makeup => "Gain"@,
        CompParam::ScFreq => "SC"@,
    }
}

impl CompParam {
    /// The short label on the strip.
    pub fn label(self) -> (r: &'static str)
        ensures
            r@ == comp_param_label(self),
    {
        match self {
            CompParam::Threshold => "Thr",
            CompParam::Ratio => "Rat",
            CompParam::Attack => "Atk",
            CompParam::Release => "Rel",
            CompParam::Makeup => "Gain",
            CompParam::ScFreq => "SC",
        }
    }
}

/// How the compressor works. A mode overrides some knobs without changing their
/// values: they come back with the mode.
#[derive(Clone, Copy, Debug, PartialEq, Eq, Structural)]
pub enum CompMode {
    /// Low fixed ratio and a fast fixed release; only the attack varies.
    Leveler,
    /// Every parameter varies.
    Compressor,
    /// Fixed attack and a high ratio.
    Limiter,
}

impl Default for CompMode {
    fn default() -> (r: CompMode)
        ensures
            r == CompMode::Compressor,
    {
        CompMode::Compressor
    }
}

/// The label of a mode.
pub open spec fn mode_label(mode: CompMode) -> Seq<char> {
    match mode {
        CompMode::Leveler => "LEV"@,
        CompMode::Compressor => "CMP"@,
        CompMode::Limiter => "LIM"@,
    }
}

impl CompMode {
    /// The short label on the strip.
    pub fn label(self) -> (r: &'static str)
        ensures
            r@ == mode_label(self),
    {
        match self {
            CompMode::Leveler => "LEV",
            CompMode::Compressor => "CMP",
            CompMode::Limiter => "LIM",
        }
    }

    /// Whether this mode overrides the knob of `param`.
    pub fn overrides(self, param: CompParam) -> (r: bool)
        ensures
            r == ((self == CompMode::Leveler && (param == CompParam::Ratio || param == CompParam::Release)) || (self
                == CompMode::Limiter && param == CompParam::Attack)),
    {
        match self {
            CompMode::Leveler => matches!(param, CompParam::Ratio | CompParam::Release),
            CompMode::Compressor => false,
            CompMode::Limiter => matches!(param, CompParam::Attack),
        }
    }
}

// ---------------------------------------------------------------------------
// Ranges
// ---------------------------------------------------------------------------

/// Numbers that limits and settings are made of, as bit patterns.
pub const N_0: u32 = 0x0000_0000;

pub const N_0_1: u32 = 0x3dcc_cccd;

pub const N_0_3: u32 = 0x3e99_999a;

pub const N_0_5: u32 = 0x3f00_0000;

pub const N_0_7: u32 = 0x3f33_3333;

pub const N_1: u32 = 0x3f80_0000;

pub const N_2: u32 = 0x4000_0000;

pub const N_3: u32 = 0x4040_0000;

pub const N_10: u32 = 0x4120_0000;

pub const N_15: u32 = 0x4170_0000;

pub const N_MINUS_15: u32 = 0xc170_0000;

pub const N_20: u32 = 0x41a0_0000;

pub const N_60: u32 = 0x4270_0000;

pub const N_MINUS_60: u32 = 0xc270_0000;

pub const N_80: u32 = 0x42a0_0000;

pub const N_100: u32 = 0x42c8_0000;

pub const N_160: u32 = 0x4320_0000;

pub const N_200: u32 = 0x4348_0000;

pub const N_400: u32 = 0x43c8_0000;

pub const N_600: u32 = 0x4416_0000;

pub const N_1500: u32 = 0x44bb_8000;

pub const N_2000: u32 = 0x44fa_0000;

pub const N_2500: u32 = 0x451c_4000;

pub const N_3100: u32 = 0x4541_c000;

pub const N_8000: u32 = 0x45fa_0000;

pub const N_12000: u32 = 0x463b_8000;

pub const N_16000: u32 = 0x467a_0000;

pub const N_20000: u32 = 0x469c_4000;

/// How far a parameter goes, and along which scale a knob moves it.
#[derive(Clone, Copy, Debug, PartialEq, Eq, Structural)]
pub enum ParamRange {
    Linear { lo: Setting, hi: Setting },
    /// The lower end is more than zero.
    Log { lo: Setting, hi: Setting },
    /// As above, with an off position to the left of it, which is zero.
    LogWithOff { lo: Setting, hi: Setting },
}

/// A linear range.
pub open spec fn linear(lo: u32, hi: u32) -> ParamRange {
    ParamRange::Linear { lo: Setting { bits: lo }, hi: Setting { bits: hi } }
}

/// A logarithmic range.
pub open spec fn logarithmic(lo: u32, hi: u32) -> ParamRange {
    ParamRange::Log { lo: Setting { bits: lo }, hi: Setting { bits: hi } }
}

impl ParamRange {
    /// The lower and the upper end.
    pub open spec fn ends(self) -> (Setting, Setting) {
        match self {
            ParamRange::Linear { lo, hi } => (lo, hi),
            ParamRange::Log { lo, hi } => (lo, hi),
            ParamRange::LogWithOff { lo, hi } => (lo, hi),
        }
    }

    /// A value within the range. What is below a range with an off position
    /// switches off; NaN switches fully on there, and stays elsewhere.
    pub open spec fn spec_clamp(self, plain: Setting) -> Setting {
        match self {
            ParamRange::Linear { lo, hi } => plain.clamped(lo, hi),
            ParamRange::Log { lo, hi } => plain.clamped(lo, hi),
            ParamRange::LogWithOff { lo, hi } => if plain.lt(lo) {
                Setting { bits: N_0 }
            } else if plain.lt(hi) {
                plain
            } else {
                hi
            },
        }
    }

    /// A value within the range.
    #[verifier::when_used_as_spec(spec_clamp)]
    pub fn clamp(self, plain: Setting) -> (r: Setting)
        ensures
            r == self.spec_clamp(plain),
    {
        match self {
            ParamRange::Linear { lo, hi } => plain.clamped(lo, hi),
            ParamRange::Log { lo, hi } => plain.clamped(lo, hi),
            ParamRange::LogWithOff { lo, hi } => if plain.lt(lo) {
                Setting { bits: N_0 }
            } else if plain.lt(hi) {
                plain
            } else {
                hi
            },
        }
    }

    /// Whether a knob moves the value along a straight line.
    pub fn is_affine(self) -> (r: bool)
        ensures
            r == (self is Linear),
    {
        matches!(self, ParamRange::Linear { .. })
    }

    /// Whether every position of a knob is a value of its own: not where there is
    /// an off position, which is wide.
    pub fn is_invertible(self) -> (r: bool)
        ensures
            r == !(self is LogWithOff),
    {
        !matches!(self, ParamRange::LogWithOff { .. })
    }

    /// From where to where values are shown: from off, where there is that.
    pub fn display_range(self) -> (r: (Setting, Setting))
        ensures
            r == (
                if self is LogWithOff {
                    Setting { bits: N_0 }
                } else {
                    self.ends().0
                },
                self.ends().1,
            ),
    {
        match self {
            ParamRange::Linear { lo, hi } => (lo, hi),
            ParamRange::Log { lo, hi } => (lo, hi),
            ParamRange::LogWithOff { hi, .. } => (Setting { bits: N_0 }, hi),
        }
    }
}

/// The range of a parameter of a band.
pub open spec fn eq_range(band: EqBand, param: EqParam) -> ParamRange {
    match param {
        EqParam::Freq => match band {
            EqBand::Hp => logarithmic(N_20, N_3100),
            EqBand::Lp => logarithmic(N_160, N_20000),
            EqBand::Lf => logarithmic(N_20, N_600),
            EqBand::Lmf => logarithmic(N_60, N_2000),
            EqBand::Hmf => logarithmic(N_400, N_8000),
            EqBand::Hf => logarithmic(N_1500, N_20000),
        },
        EqParam::Gain => linear(N_MINUS_15, N_15),
        EqParam::Q => logarithmic(N_0_3, N_3),
    }
}

/// The range of a parameter of the compressor.
pub open spec fn comp_range(param: CompParam) -> ParamRange {
    match param {
        CompParam::Threshold => linear(N_MINUS_60, N_0),
        CompParam::Ratio => logarithmic(N_1, N_20),
        CompParam::Attack => logarithmic(N_0_1, N_100),
        CompParam::Release => logarithmic(N_10, N_2000),
        CompParam::Makeup => linear(N_0, N_20),
        CompParam::ScFreq => ParamRange::LogWithOff { lo: Setting { bits: N_20 }, hi: Setting { bits: N_16000 } },
    }
}

fn log_range(lo: u32, hi: u32) -> (r: ParamRange)
    ensures
        r == logarithmic(lo, hi),
{
    ParamRange::Log { lo: Setting { bits: lo }, hi: Setting { bits: hi } }
}

fn linear_range(lo: u32, hi: u32) -> (r: ParamRange)
    ensures
        r == linear(lo, hi),
{
    ParamRange::Linear { lo: Setting { bits: lo }, hi: Setting { bits: hi } }
}

impl EqBand {
    /// The range of the frequency of this band.
    pub fn freq_range(self) -> (r: ParamRange)
        ensures
            r == eq_range(self, EqParam::Freq),
    {
        match self {
            EqBand::Hp => log_range(N_20, N_3100),
            EqBand::Lp => log_range(N_160, N_20000),
            EqBand::Lf => log_range(N_20, N_600),
            EqBand::Lmf => log_range(N_60, N_2000),
            EqBand::Hmf => log_range(N_400, N_8000),
            EqBand::Hf => log_range(N_1500, N_20000),
        }
    }
}

impl EqParam {
    /// The range of this parameter of a band.
    pub fn range(self, band: EqBand) -> (r: ParamRange)
        ensures
            r == eq_range(band, self),
    {
        match self {
            EqParam::Freq => band.freq_range(),
            EqParam::Gain => linear_range(N_MINUS_15, N_15),
            EqParam::Q => log_range(N_0_3, N_3),
        }
    }
}

impl CompParam {
    /// The range of this parameter.
    pub fn range(self) -> (r: ParamRange)
        ensures
            r == comp_range(self),
    {
        match self {
            CompParam::Threshold => linear_range(N_MINUS_60, N_0),
            CompParam::Ratio => log_range(N_1, N_20),
            CompParam::Attack => log_range(N_0_1, N_100),
            CompParam::Release => log_range(N_10, N_2000),
            CompParam::Makeup => linear_range(N_0, N_20),
            CompParam::ScFreq => ParamRange::LogWithOff { lo: Setting { bits: N_20 }, hi: Setting { bits: N_16000 } },
        }
    }
}

// ---------------------------------------------------------------------------
// Settings
// ---------------------------------------------------------------------------

/// The settings of one band.
#[derive(Clone, Copy, Debug, PartialEq, Eq, Structural)]
pub struct EqBandSettings {
    pub on: bool,
    pub freq_hz: Setting,
    /// Not used by the two filters.
    pub gain_db: Setting,
    /// Not used by a shelf.
    pub q: Setting,
    /// A bell in place of a shelf.
    pub bell: bool,
}

impl EqBandSettings {
    /// A parameter of the band.
    pub open spec fn value(self, param: EqParam) -> Setting {
        match param {
            EqParam::Freq => self.freq_hz,
            EqParam::Gain => self.gain_db,
            EqParam::Q => self.q,
        }
    }

    /// The band with another value of a parameter.
    pub open spec fn with_value(self, param: EqParam, v: Setting) -> EqBandSettings {
        match param {
            EqParam::Freq => EqBandSettings { freq_hz: v, ..self },
            EqParam::Gain => EqBandSettings { gain_db: v, ..self },
            EqParam::Q => EqBandSettings { q: v, ..self },
        }
    }
}

/// A band that changes nothing yet.
pub open spec fn flat_band(on: bool, freq: u32) -> EqBandSettings {
    EqBandSettings {
        on,
        freq_hz: Setting { bits: freq },
        gain_db: Setting { bits: N_0 },
        q: Setting { bits: N_0_7 },
        bell: false,
    }
}

fn new_band(on: bool, freq: u32) -> (r: EqBandSettings)
    ensures
        r == flat_band(on, freq),
{
    EqBandSettings {
        on,
        freq_hz: Setting { bits: freq },
        gain_db: Setting { bits: N_0 },
        q: Setting { bits: N_0_7 },
        bell: false,
    }
}

/// The settings of the equaliser.
#[derive(Clone, Copy, Debug, PartialEq, Eq, Structural)]
pub struct EqSettings {
    pub on: bool,
    pub hp: EqBandSettings,
    pub lp: EqBandSettings,
    pub lf: EqBandSettings,
    pub lmf: EqBandSettings,
    pub hmf: EqBandSettings,
    pub hf: EqBandSettings,
}

/// The equaliser as it is at first: off, and so are the two filters; the other
/// bands change nothing.
pub open spec fn first_eq() -> EqSettings {
    EqSettings {
        on: false,
        hp: flat_band(false, N_80),
        lp: flat_band(false, N_12000),
        lf: flat_band(true, N_100),
        lmf: flat_band(true, N_400),
        hmf: flat_band(true, N_2500),
        hf: flat_band(true, N_8000),
    }
}

impl Default for EqSettings {
    fn default() -> (r: EqSettings)
        ensures
            r == first_eq(),
    {
        EqSettings {
            on: false,
            hp: new_band(false, N_80),
            lp: new_band(false, N_12000),
            lf: new_band(true, N_100),
            lmf: new_band(true, N_400),
            hmf: new_band(true, N_2500),
            hf: new_band(true, N_8000),
        }
    }
}

impl EqSettings {
    /// The settings of a band.
    pub open spec fn at(self, band: EqBand) -> EqBandSettings {
        match band {
            EqBand::Hp => self.hp,
            EqBand::Lp => self.lp,
            EqBand::Lf => self.lf,
            EqBand::Lmf => self.lmf,
            EqBand::Hmf => self.hmf,
            EqBand::Hf => self.hf,
        }
    }

    /// The settings with another band.
    pub open spec fn with_band(self, band: EqBand, b: EqBandSettings) -> EqSettings {
        match band {
            EqBand::Hp => EqSettings { hp: b, ..self },
            EqBand::Lp => EqSettings { lp: b, ..self },
            EqBand::Lf => EqSettings { lf: b, ..self },
            EqBand::Lmf => EqSettings { lmf: b, ..self },
            EqBand::Hmf => EqSettings { hmf: b, ..self },
            EqBand::Hf => EqSettings { hf: b, ..self },
        }
    }

    /// The settings after a parameter of a band was set, within its range.
    pub open spec fn after_setting(self, band: EqBand, param: EqParam, v: Setting) -> EqSettings {
        self.with_band(band, self.at(band).with_value(param, eq_range(band, param).clamp(v)))
    }

    /// The settings of a band.
    pub fn band(&self, band: EqBand) -> (r: &EqBandSettings)
        ensures
            *r == self.at(band),
    {
        match band {
            EqBand::Hp => &self.hp,
            EqBand::Lp => &self.lp,
            EqBand::Lf => &self.lf,
            EqBand::Lmf => &self.lmf,
            EqBand::Hmf => &self.hmf,
            EqBand::Hf => &self.hf,
        }
    }

    /// The settings of a band, to be changed.
    pub fn band_mut(&mut self, band: EqBand) -> (r: &mut EqBandSettings)
        ensures
            *r == old(self).at(band),
            *final(self) == old(self).with_band(band, *final(r)),
    {
        match band {
            EqBand::Hp => &mut self.hp,
            EqBand::Lp => &mut self.lp,
            EqBand::Lf => &mut self.lf,
            EqBand::Lmf => &mut self.lmf,
            EqBand::Hmf => &mut self.hmf,
            EqBand::Hf => &mut self.hf,
        }
    }

    /// A parameter of a band.
    pub fn param(&self, band: EqBand, param: EqParam) -> (r: Setting)
        ensures
            r == self.at(band).value(param),
    {
        let b = self.band(band);
        match param {
            EqParam::Freq => b.freq_hz,
            EqParam::Gain => b.gain_db,
            EqParam::Q => b.q,
        }
    }

    /// Sets a parameter of a band, within its range.
    pub fn set_param(&mut self, band: EqBand, param: EqParam, value: Setting)
        ensures
            *final(self) == old(self).after_setting(band, param, value),
    {
        let v = param.range(band).clamp(value);
        let b = self.band_mut(band);
        match param {
            EqParam::Freq => {
                b.freq_hz = v;
            },
            EqParam::Gain => {
                b.gain_db = v;
            },
            EqParam::Q => {
                b.q = v;
            },
        }
    }
}

/// The settings of the compressor.
#[derive(Clone, Copy, Debug, PartialEq, Eq, Structural)]
pub struct CompSettings {
    pub on: bool,
    pub mode: CompMode,
    pub threshold_db: Setting,
    pub ratio: Setting,
    pub attack_ms: Setting,
    pub release_ms: Setting,
    pub makeup_db: Setting,
    /// Zero for a detector without a filter.
    pub sc_freq_hz: Setting,
    /// Listening to the detector. Never stored.
    pub sc_listen: bool,
}

/// The compressor as it is at first: off.
pub open spec fn first_comp() -> CompSettings {
    CompSettings {
        on: false,
        mode: CompMode::Compressor,
        threshold_db: Setting { bits: N_0 },
        ratio: Setting { bits: N_2 },
        attack_ms: Setting { bits: N_10 },
        release_ms: Setting { bits: N_200 },
        makeup_db: Setting { bits: N_0 },
        sc_freq_hz: Setting { bits: N_0 },
        sc_listen: false,
    }
}

impl Default for CompSettings {
    fn default() -> (r: CompSettings)
        ensures
            r == first_comp(),
    {
        CompSettings {
            on: false,
            mode: CompMode::Compressor,
            threshold_db: Setting { bits: N_0 },
            ratio: Setting { bits: N_2 },
            attack_ms: Setting { bits: N_10 },
            release_ms: Setting { bits: N_200 },
            makeup_db: Setting { bits: N_0 },
            sc_freq_hz: Setting { bits: N_0 },
            sc_listen: false,
        }
    }
}

impl CompSettings {
    /// What the knob of a parameter says.
    pub open spec fn value(self, param: CompParam) -> Setting {
        match param {
            CompParam::Threshold => self.threshold_db,
            CompParam::Ratio => self.ratio,
            CompParam::Attack => self.attack_ms,
            CompParam::Release => self.release_ms,
            CompParam::Makeup => self.makeup_db,
            CompParam::ScFreq => self.sc_freq_hz,
        }
    }

    /// The settings with another value on the knob of a parameter.
    pub open spec fn with_value(self, param: CompParam, v: Setting) -> CompSettings {
        match param {
            CompParam::Threshold => CompSettings { threshold_db: v, ..self },
            CompParam::Ratio => CompSettings { ratio: v, ..self },
            CompParam::Attack => CompSettings { attack_ms: v, ..self },
            CompParam::Release => CompSettings { release_ms: v, ..self },
            CompParam::Makeup => CompSettings { makeup_db: v, ..self },
            CompParam::ScFreq => CompSettings { sc_freq_hz: v, ..self },
        }
    }

    /// What the knob of a parameter says, whatever the mode makes of it.
    pub fn param(&self, param: CompParam) -> (r: Setting)
        ensures
            r == self.value(param),
    {
        match param {
            CompParam::Threshold => self.threshold_db,
            CompParam::Ratio => self.ratio,
            CompParam::Attack => self.attack_ms,
            CompParam::Release => self.release_ms,
            CompParam::Makeup => self.makeup_db,
            CompParam::ScFreq => self.sc_freq_hz,
        }
    }

    /// Sets the knob of a parameter, within its range.
    pub fn set_param(&mut self, param: CompParam, value: Setting)
        ensures
            *final(self) == old(self).with_value(param, comp_range(param).clamp(value)),
    {
        let v = param.range().clamp(value);
        match param {
            CompParam::Threshold => {
                self.threshold_db = v;
            },
            CompParam::Ratio => {
                self.ratio = v;
            },
            CompParam::Attack => {
                self.attack_ms = v;
            },
            CompParam::Release => {
                self.release_ms = v;
            },
            CompParam::Makeup => {
                self.makeup_db = v;
            },
            CompParam::ScFreq => {
                self.sc_freq_hz = v;
            },
        }
    }

    /// The ratio, the attack and the release that are heard.
    pub open spec fn heard(self) -> (Setting, Setting, Setting) {
        match self.mode {
            CompMode::Leveler => (Setting { bits: N_2 }, self.attack_ms, Setting { bits: N_100 }),
            CompMode::Compressor => (self.ratio, self.attack_ms, self.release_ms),
            CompMode::Limiter => (
                if (Setting { bits: N_20 }).lt(self.ratio) {
                    self.ratio
                } else {
                    Setting { bits: N_20 }
                },
                Setting { bits: N_0_1 },
                self.release_ms,
            ),
        }
    }

    /// The ratio, the attack and the release that are heard: what the knobs say,
    /// unless the mode says otherwise. A limiter has a ratio of at least 20.
    pub fn effective(&self) -> (r: (Setting, Setting, Setting))
        ensures
            r == self.heard(),
    {
        match self.mode {
            CompMode::Leveler => (Setting { bits: N_2 }, self.attack_ms, Setting { bits: N_100 }),
            CompMode::Compressor => (self.ratio, self.attack_ms, self.release_ms),
            CompMode::Limiter => {
                let least = Setting { bits: N_20 };
                (
                    if least.lt(self.ratio) {
                        self.ratio
                    } else {
                        least
                    },
                    Setting { bits: N_0_1 },
                    self.release_ms,
                )
            },
        }
    }
}

/// Where a value of the strip is kept.
#[derive(Clone, Copy, Debug, PartialEq, Eq, Structural)]
pub enum StripTarget {
    EqOn,
    CompOn,
    Eq { band: EqBand, param: EqParam },
    Comp { param: CompParam },
    /// It is no value of the strip.
    Elsewhere,
}

/// The channel strip of a track.
#[derive(Clone, Copy, Debug, PartialEq, Eq, Structural)]
pub struct ChannelStrip {
    pub comp: CompSettings,
    pub eq: EqSettings,
}

impl Default for ChannelStrip {
    /// One that changes nothing.
    fn default() -> (r: ChannelStrip)
        ensures
            r == (ChannelStrip { comp: first_comp(), eq: first_eq() }),
    {
        ChannelStrip { comp: CompSettings::default(), eq: EqSettings::default() }
    }
}

/// A switch as a number.
pub open spec fn switch_value(on: bool) -> Setting {
    if on {
        Setting { bits: N_1 }
    } else {
        Setting { bits: N_0 }
    }
}

impl ChannelStrip {
    /// Whether nothing is changed: both sections are off.
    pub fn is_bypassed(&self) -> (r: bool)
        ensures
            r == (!self.comp.on && !self.eq.on),
    {
        !self.comp.on && !self.eq.on
    }

    /// A value of the strip.
    pub open spec fn value(self, target: StripTarget) -> Option<Setting> {
        match target {
            StripTarget::EqOn => Some(switch_value(self.eq.on)),
            StripTarget::CompOn => Some(switch_value(self.comp.on)),
            StripTarget::Eq { band, param } => Some(self.eq.at(band).value(param)),
            StripTarget::Comp { param } => Some(self.comp.value(param)),
            StripTarget::Elsewhere => None,
        }
    }

    /// The strip after a value was set, within its range. A switch is on from one
    /// half on.
    pub open spec fn after_setting(self, target: StripTarget, v: Setting) -> ChannelStrip {
        match target {
            StripTarget::EqOn => ChannelStrip {
                eq: EqSettings { on: (Setting { bits: N_0_5 }).le(v), ..self.eq },
                ..self
            },
            StripTarget::CompOn => ChannelStrip {
                comp: CompSettings { on: (Setting { bits: N_0_5 }).le(v), ..self.comp },
                ..self
            },
            StripTarget::Eq { band, param } => ChannelStrip { eq: self.eq.after_setting(band, param, v), ..self },
            StripTarget::Comp { param } => ChannelStrip {
                comp: self.comp.with_value(param, comp_range(param).clamp(v)),
                ..self
            },
            StripTarget::Elsewhere => self,
        }
    }

    /// A value of the strip, if it is one.
    pub fn target_value(&self, target: &StripTarget) -> (r: Option<Setting>)
        ensures
            r == self.value(*target),
    {
        match target {
            StripTarget::EqOn => Some(
                if self.eq.on {
                    Setting { bits: N_1 }
                } else {
                    Setting { bits: N_0 }
                },
            ),
            StripTarget::CompOn => Some(
                if self.comp.on {
                    Setting { bits: N_1 }
                } else {
                    Setting { bits: N_0 }
                },
            ),
            StripTarget::Eq { band, param } => Some(self.eq.param(*band, *param)),
            StripTarget::Comp { param } => Some(self.comp.param(*param)),
            StripTarget::Elsewhere => None,
        }
    }

    /// Sets a value of the strip; false if it is none.
    pub fn set_target_value(&mut self, target: &StripTarget, value: Setting) -> (r: bool)
        ensures
            r == (*target != StripTarget::Elsewhere),
            *final(self) == old(self).after_setting(*target, value),
    {
        match target {
            StripTarget::EqOn => {
                self.eq.on = (Setting { bits: N_0_5 }).le(value);
            },
            StripTarget::CompOn => {
                self.comp.on = (Setting { bits: N_0_5 }).le(value);
            },
            StripTarget::Eq { band, param } => {
                self.eq.set_param(*band, *param, value);
            },
            StripTarget::Comp { param } => {
                self.comp.set_param(*param, value);
            },
            StripTarget::Elsewhere => {
                return false;
            },
        }
        true
    }
}

/// A mode changes what is heard and none of the knobs: going to another mode and
/// back, everything is heard as before.
pub proof fn law_modes_leave_the_knobs_alone(c: CompSettings, other: CompMode, param: CompParam)
    ensures
        (CompSettings { mode: other, ..c }).value(param) == c.value(param),
        (CompSettings { mode: c.mode, ..(CompSettings { mode: other, ..c }) }).heard() == c.heard(),
{
}

/// A mode overrides the knobs that it says it does and no others: what is heard
/// of the others is what they say.
pub proof fn law_modes_override_what_they_say(c: CompSettings)
    ensures
        c.mode == CompMode::Compressor ==> c.heard() == (c.ratio, c.attack_ms, c.release_ms),
        c.mode == CompMode::Leveler ==> c.heard().1 == c.attack_ms,
        c.mode == CompMode::Limiter ==> c.heard().2 == c.release_ms,
{
}

/// What was set is read back, within its range; a number outside it is the limit
/// that it is beyond.
pub proof fn law_values_are_read_back(strip: ChannelStrip, band: EqBand, param: EqParam, comp: CompParam, v: Setting)
    ensures
        strip.after_setting(StripTarget::Eq { band, param }, v).value(StripTarget::Eq { band, param }) == Some(
            eq_range(band, param).clamp(v),
        ),
        strip.after_setting(StripTarget::Comp { param: comp }, v).value(StripTarget::Comp { param: comp }) == Some(
            comp_range(comp).clamp(v),
        ),
        strip.after_setting(StripTarget::EqOn, v).value(StripTarget::EqOn) == Some(
            switch_value((Setting { bits: N_0_5 }).le(v)),
        ),
        strip.after_setting(StripTarget::CompOn, v).value(StripTarget::CompOn) == Some(
            switch_value((Setting { bits: N_0_5 }).le(v)),
        ),
{
}

/// Setting a value leaves every other value of a strip as it is.
pub proof fn law_setting_leaves_the_rest(strip: ChannelStrip, target: StripTarget, other: StripTarget, v: Setting)
    requires
        target != other,
    ensures
        strip.after_setting(target, v).value(other) == strip.value(other),
        strip.after_setting(StripTarget::Elsewhere, v) == strip,
{
}

/// A value that is set lies in its range, and is the value itself where that does. Below
/// its range the filter of the side chain is off.
pub proof fn law_values_stay_in_their_range(band: EqBand, param: EqParam, comp: CompParam, v: Setting)
    requires
        !v.is_nan(),
    ensures
        ({
            let (lo, hi) = eq_range(band, param).ends();
            let r = eq_range(band, param).clamp(v);
            lo.le(hi) && lo.le(r) && r.le(hi) && (lo.le(v) && v.le(hi) && v.rank() != hi.rank() ==> r == v)
        }),
        ({
            let (lo, hi) = comp_range(comp).ends();
            let r = comp_range(comp).clamp(v);
            &&& lo.le(hi)
            &&& r.le(hi)
            &&& comp != CompParam::ScFreq ==> lo.le(r)
            &&& comp == CompParam::ScFreq ==> lo.le(r) || v.lt(lo) && r.rank() == 0
            &&& lo.le(v) && v.le(hi) && v.rank() != hi.rank() ==> r == v
        }),
{
}

/// A limiter compresses by no less than it should, at once, and a leveller always alike.
pub proof fn law_modes_say_how_hard(c: CompSettings)
    requires
        !c.ratio.is_nan(),
    ensures
        c.mode == CompMode::Limiter ==> (Setting { bits: N_20 }).le(c.heard().0) && c.ratio.le(c.heard().0)
            && c.heard().1 == (Setting { bits: N_0_1 }),
        c.mode == CompMode::Limiter && (Setting { bits: N_20 }).le(c.ratio) ==> c.heard().0.rank() == c.ratio.rank(),
        c.mode == CompMode::Leveler ==> c.heard().0 == (Setting { bits: N_2 }) && c.heard().2 == (Setting {
            bits: N_100,
        }),
{
}

} // verus!
