//! What generators of modulation draw and which step they are at.
//!
//! A generator depends on the position in the song alone: the same position
//! gives the same value, in the preview and in an export.

use crate::beat::Beat;
use crate::setting::Setting;
use vstd::prelude::*;

verus! {

// ---------------------------------------------------------------------------
// Random numbers
// ---------------------------------------------------------------------------

/// A number mixed by SplitMix64.
pub open spec fn mixed(x: u64) -> u64 {
    let a = x.wrapping_add(0x9e37_79b9_7f4a_7c15);
    let b = (a ^ (a >> 30)).wrapping_mul(0xbf58_476d_1ce4_e5b9);
    let c = (b ^ (b >> 27)).wrapping_mul(0x94d0_49bb_1331_11eb);
    c ^ (c >> 31)
}

fn splitmix64(x: u64) -> (r: u64)
    ensures
        r == mixed(x),
{
    let a: u64 = x.wrapping_add(0x9e37_79b9_7f4a_7c15);
    let b: u64 = (a ^ (a >> 30)).wrapping_mul(0xbf58_476d_1ce4_e5b9);
    let c: u64 = (b ^ (b >> 27)).wrapping_mul(0x94d0_49bb_1331_11eb);
    c ^ (c >> 31)
}

/// What is drawn for a step, in parts of 2 to the power of 53.
pub open spec fn drawn(seed: u64, step: u64) -> u64 {
    mixed(seed ^ step) >> 11
}

/// What is drawn for a step, in parts of 2 to the power of 53. Steps before the
/// first one count as well.
pub fn random_parts(seed: u64, step: i64) -> (r: u64)
    ensures
        r == drawn(seed, step as u64),
        r < 0x20_0000_0000_0000,
{
    let h: u64 = splitmix64(seed ^ (step as u64));
    assert(h >> 11 < 0x20_0000_0000_0000) by (bit_vector);
    h >> 11
}

/// Another seed, which the old one decides.
pub fn reseed(prev: u64) -> (r: u64)
    ensures
        r == mixed(prev ^ 0xd1b5_4a32_d192_ed03),
{
    splitmix64(prev ^ 0xd1b5_4a32_d192_ed03)
}

/// Multiplying by a number that has an inverse keeps numbers apart.
proof fn lemma_times_apart(x: u64, y: u64, c: u64, inverse: u64)
    requires
        (c * inverse) % 0x1_0000_0000_0000_0000 == 1,
        x.wrapping_mul(c) == y.wrapping_mul(c),
    ensures
        x == y,
{
    let m = 0x1_0000_0000_0000_0000int;
    let p = x as int * c as int;
    let q = y as int * c as int;
    assert(p % m == q % m);
    vstd::arithmetic::div_mod::lemma_mul_mod_noop_left(p, inverse as int, m);
    vstd::arithmetic::div_mod::lemma_mul_mod_noop_left(q, inverse as int, m);
    assert((p * inverse) % m == (q * inverse) % m);
    lemma_undone(x as int, c as int, inverse as int, m);
    lemma_undone(y as int, c as int, inverse as int, m);
}

proof fn lemma_undone(x: int, c: int, inverse: int, m: int)
    requires
        0 <= x < m,
        (c * inverse) % m == 1,
    ensures
        (x * c * inverse) % m == x,
{
    assert(x * c * inverse == x * (c * inverse)) by (nonlinear_arith);
    vstd::arithmetic::div_mod::lemma_mul_mod_noop_right(x, c * inverse, m);
    assert(x * 1 == x);
    vstd::arithmetic::div_mod::lemma_small_mod(x as nat, m as nat);
}

/// Different numbers are mixed into different ones.
pub proof fn law_mixing_keeps_apart(x: u64, y: u64)
    requires
        mixed(x) == mixed(y),
    ensures
        x == y,
{
    let a = x.wrapping_add(0x9e37_79b9_7f4a_7c15);
    let b = (a ^ (a >> 30)).wrapping_mul(0xbf58_476d_1ce4_e5b9);
    let c = (b ^ (b >> 27)).wrapping_mul(0x94d0_49bb_1331_11eb);
    let p = y.wrapping_add(0x9e37_79b9_7f4a_7c15);
    let q = (p ^ (p >> 30)).wrapping_mul(0xbf58_476d_1ce4_e5b9);
    let r = (q ^ (q >> 27)).wrapping_mul(0x94d0_49bb_1331_11eb);
    assert(c == r) by (bit_vector)
        requires
            c ^ (c >> 31) == r ^ (r >> 31),
    ;
    assert((0x94d0_49bb_1331_11ebu64 * 0x3196_42b2_d24d_8ec3u64) % 0x1_0000_0000_0000_0000 == 1);
    lemma_times_apart(b ^ (b >> 27), q ^ (q >> 27), 0x94d0_49bb_1331_11eb, 0x3196_42b2_d24d_8ec3);
    assert(b == q) by (bit_vector)
        requires
            b ^ (b >> 27) == q ^ (q >> 27),
    ;
    assert((0xbf58_476d_1ce4_e5b9u64 * 0x96de_1b17_3f11_9089u64) % 0x1_0000_0000_0000_0000 == 1);
    lemma_times_apart(a ^ (a >> 30), p ^ (p >> 30), 0xbf58_476d_1ce4_e5b9, 0x96de_1b17_3f11_9089);
    assert(a == p) by (bit_vector)
        requires
            a ^ (a >> 30) == p ^ (p >> 30),
    ;
}

/// Different seeds lead to different seeds.
pub proof fn law_reseeding_keeps_apart(x: u64, y: u64)
    requires
        mixed(x ^ 0xd1b5_4a32_d192_ed03) == mixed(y ^ 0xd1b5_4a32_d192_ed03),
    ensures
        x == y,
{
    law_mixing_keeps_apart(x ^ 0xd1b5_4a32_d192_ed03, y ^ 0xd1b5_4a32_d192_ed03);
    assert(x == y) by (bit_vector)
        requires
            x ^ 0xd1b5_4a32_d192_ed03 == y ^ 0xd1b5_4a32_d192_ed03,
    ;
}

// ---------------------------------------------------------------------------
// Steps
// ---------------------------------------------------------------------------

/// In which order steps are gone through.
#[derive(Clone, Copy, Debug, PartialEq, Eq, Structural)]
pub enum StepsDirection {
    Forward,
    Backward,
    /// Up and down again, without staying at either end.
    PingPong,
}

/// How many steps one round has, of `n` values.
pub open spec fn round_len(direction: StepsDirection, n: int) -> int {
    if direction == StepsDirection::PingPong && n > 1 {
        2 * n - 2
    } else {
        n
    }
}

/// The value that step `k` shows, of `n` values.
pub open spec fn shown_at(direction: StepsDirection, k: int, n: int) -> int {
    match direction {
        StepsDirection::Forward => k % n,
        StepsDirection::Backward => n - 1 - k % n,
        StepsDirection::PingPong => if n == 1 {
            0
        } else if k % (2 * n - 2) < n {
            k % (2 * n - 2)
        } else {
            2 * n - 2 - k % (2 * n - 2)
        },
    }
}

/// How many steps one round has; none without values.
pub fn steps_per_round(direction: StepsDirection, n: usize) -> (r: usize)
    requires
        n <= usize::MAX / 2,
        n <= i64::MAX / 2,
    ensures
        r == round_len(direction, n as int),
{
    match direction {
        StepsDirection::PingPong => if n > 1 {
            2 * n - 2
        } else {
            n
        },
        _ => n,
    }
}

/// What is left of `k` when whole rounds of `n` are taken away.
fn within_round(k: i64, n: u64) -> (r: u64)
    requires
        0 < n <= i64::MAX,
    ensures
        r == k as int % n as int,
        r < n,
{
    if k >= 0 {
        (k as u64) % n
    } else {
        let up: u64 = (-(k + 1)) as u64;
        let rest: u64 = up % n;
        proof {
            let a = up as int;
            let m = n as int;
            assert(k as int == -(a + 1));
            vstd::arithmetic::div_mod::lemma_fundamental_div_mod(a, m);
            let q = a / m;
            let b = m - 1 - a % m;
            assert(k as int == m * (-(q + 1)) + b) by (nonlinear_arith)
                requires
                    k as int == -(a + 1),
                    a == m * q + a % m,
                    b == m - 1 - a % m,
            ;
            vstd::arithmetic::div_mod::lemma_fundamental_div_mod_converse(k as int, m, -(q + 1), b);
        }
        n - 1 - rest
    }
}

/// The value that step `k` shows, of `n` values; without values, the first.
/// Steps before the first one count as well.
pub fn step_index(direction: StepsDirection, k: i64, n: usize) -> (r: usize)
    requires
        n <= usize::MAX / 2,
        n <= i64::MAX / 2,
    ensures
        r == shown_at(
            direction,
            k as int,
            if n == 0 {
                1
            } else {
                n as int
            },
        ),
        n > 0 ==> r < n,
{
    let n: usize = if n == 0 {
        1
    } else {
        n
    };
    match direction {
        StepsDirection::Forward => within_round(k, n as u64) as usize,
        StepsDirection::Backward => n - 1 - within_round(k, n as u64) as usize,
        StepsDirection::PingPong => {
            if n == 1 {
                return 0;
            }
            let period: usize = 2 * n - 2;
            let at: usize = within_round(k, period as u64) as usize;
            if at < n {
                at
            } else {
                period - at
            }
        },
    }
}

/// The step that is shown `k` steps into a round; the first one if there are no
/// values.
pub fn steps_active_index(direction: StepsDirection, k: i64, n: usize) -> (r: usize)
    requires
        n <= usize::MAX / 2,
        n <= i64::MAX / 2,
    ensures
        n == 0 ==> r == 0,
        n > 0 ==> r == shown_at(direction, k as int, n as int),
{
    if n == 0 {
        0
    } else {
        step_index(direction, k, n)
    }
}

/// After a round everything starts again.
pub proof fn law_rounds_repeat(direction: StepsDirection, k: int, n: int)
    requires
        n > 0,
    ensures
        shown_at(direction, k + round_len(direction, n), n) == shown_at(direction, k, n),
{
    if direction == StepsDirection::PingPong {
        if n > 1 {
            vstd::arithmetic::div_mod::lemma_mod_add_multiples_vanish(k, 2 * n - 2);
        }
    } else {
        vstd::arithmetic::div_mod::lemma_mod_add_multiples_vanish(k, n);
    }
}

/// Within a round going up and down shows every value, and neighbours come one
/// after the other.
pub proof fn law_ping_pong_moves_by_one(k: int, n: int)
    requires
        n > 1,
    ensures
        ({
            let a = shown_at(StepsDirection::PingPong, k, n);
            let b = shown_at(StepsDirection::PingPong, k + 1, n);
            0 <= a < n && (b == a + 1 || b == a - 1)
        }),
{
    let p = 2 * n - 2;
    let at = k % p;
    vstd::arithmetic::div_mod::lemma_fundamental_div_mod(k, p);
    let q = k / p;
    assert(0 <= at < p) by {
        vstd::arithmetic::div_mod::lemma_mod_bound(k, p);
    }
    if at + 1 < p {
        assert(k + 1 == q * p + (at + 1)) by (nonlinear_arith)
            requires
                k == p * q + at,
        ;
        vstd::arithmetic::div_mod::lemma_fundamental_div_mod_converse(k + 1, p, q, at + 1);
    } else {
        assert(k + 1 == (q + 1) * p + 0) by (nonlinear_arith)
            requires
                k == p * q + at,
                at + 1 == p,
        ;
        vstd::arithmetic::div_mod::lemma_fundamental_div_mod_converse(k + 1, p, q + 1, 0);
    }
}

// ---------------------------------------------------------------------------
// Envelopes of several segments
// ---------------------------------------------------------------------------

/// Where in an envelope a position is.
#[derive(Clone, Copy, Debug, PartialEq, Eq, Structural)]
pub enum MsegAt {
    /// There are no points.
    Nowhere,
    /// At a point, or beyond the first or last one.
    Point(usize),
    /// Between a point and the next.
    Segment(usize),
}

/// The first segment that holds a position, from `from` on.
pub open spec fn segment_from(times: Seq<Setting>, q: Setting, from: int) -> Option<int>
    decreases times.len() - from,
{
    if from < 0 || from + 1 >= times.len() {
        None
    } else if times[from].le(q) && q.lt(times[from + 1]) {
        Some(from)
    } else {
        segment_from(times, q, from + 1)
    }
}

/// Where in an envelope a position between 0 and 1 is.
pub open spec fn located(times: Seq<Setting>, q: Setting) -> MsegAt {
    if times.len() == 0 {
        MsegAt::Nowhere
    } else if times.len() == 1 || q.le(times[0]) {
        MsegAt::Point(0)
    } else if times.last().le(q) {
        MsegAt::Point((times.len() - 1) as usize)
    } else {
        match segment_from(times, q, 0) {
            Some(i) => MsegAt::Segment(i as usize),
            None => MsegAt::Segment((times.len() - 2) as usize),
        }
    }
}

/// Where in an envelope a position is; beyond 0 and 1 it counts as there.
pub fn mseg_locate(times: &Vec<Setting>, q: Setting) -> (r: MsegAt)
    ensures
        r == located(times@, q.clamped(Setting { bits: 0 }, Setting { bits: 0x3f80_0000 })),
        match r {
            MsegAt::Nowhere => times@.len() == 0,
            MsegAt::Point(i) => i < times@.len(),
            MsegAt::Segment(i) => i + 1 < times@.len(),
        },
{
    let n: usize = times.len();
    if n == 0 {
        return MsegAt::Nowhere;
    }
    if n == 1 {
        return MsegAt::Point(0);
    }
    let at = q.clamped(Setting { bits: 0 }, Setting { bits: 0x3f80_0000 });
    if at.le(times[0]) {
        return MsegAt::Point(0);
    }
    if times[n - 1].le(at) {
        return MsegAt::Point(n - 1);
    }
    let mut i: usize = 0;
    while i + 1 < n
        invariant
            n == times@.len(),
            n >= 2,
            i + 1 <= n,
            at == q.clamped(Setting { bits: 0 }, Setting { bits: 0x3f80_0000 }),
            !at.le(times@[0]),
            !times@.last().le(at),
            segment_from(times@, at, 0) == segment_from(times@, at, i as int),
        decreases n - i,
    {
        if times[i].le(at) && at.lt(times[i + 1]) {
            return MsegAt::Segment(i);
        }
        i += 1;
    }
    MsegAt::Segment(n - 2)
}

/// A position strictly between the first and the last point of an envelope lies
/// in the segment that is found.
pub proof fn law_positions_lie_in_their_segment(times: Seq<Setting>, q: Setting)
    requires
        times.len() >= 2,
        !q.is_nan(),
        forall|i: int| 0 <= i < times.len() ==> !(#[trigger] times[i]).is_nan(),
        times[0].lt(q),
        q.lt(times.last()),
    ensures
        segment_from(times, q, 0) matches Some(i) && 0 <= i && i + 1 < times.len() && times[i].le(q) && q.lt(
            times[i + 1],
        ),
{
    lemma_segment(times, q, 0);
}

proof fn lemma_segment(times: Seq<Setting>, q: Setting, from: int)
    requires
        times.len() >= 2,
        !q.is_nan(),
        forall|i: int| 0 <= i < times.len() ==> !(#[trigger] times[i]).is_nan(),
        0 <= from < times.len(),
        times[from].le(q),
        q.lt(times.last()),
    ensures
        segment_from(times, q, from) matches Some(i) && from <= i && i + 1 < times.len() && times[i].le(q) && q.lt(
            times[i + 1],
        ),
    decreases times.len() - from,
{
    if !q.lt(times[from + 1]) {
        lemma_segment(times, q, from + 1);
    }
}

// ---------------------------------------------------------------------------
// What a generator is set to
// ---------------------------------------------------------------------------

/// The wave of a low frequency oscillator.
#[derive(Clone, Copy, Debug, PartialEq, Eq, Structural)]
pub enum LfoShape {
    Sine,
    Triangle,
    SawUp,
    SawDown,
    Square,
    /// High for the given part of the round.
    Pulse { width: Setting },
}

/// The settings of a low frequency oscillator that can be modulated.
#[derive(Clone, Copy, Debug, PartialEq, Eq, Structural)]
pub struct LfoConfig {
    pub shape: LfoShape,
    pub phase: Setting,
    /// How far the wave is bent; one half leaves it as it is.
    pub shape_amt: Setting,
    pub jitter: Setting,
    pub smooth: Setting,
}

/// The settings of an envelope.
#[derive(Clone, Copy, Debug, PartialEq, Eq, Structural)]
pub struct AdsrConfig {
    pub attack_ms: Setting,
    pub decay_ms: Setting,
    pub sustain: Setting,
    pub release_ms: Setting,
}

/// What makes a modulation, with the settings that can be modulated themselves.
#[derive(Clone, Copy, Debug, PartialEq, Eq, Structural)]
pub enum ModSourceKind {
    EnvelopeFollower,
    Lfo(LfoConfig),
    Random { seed: u64, smooth: Setting },
    Mseg,
    Steps { direction: StepsDirection, slew: Setting },
    Adsr(AdsrConfig),
}

/// Where the time of a generator starts.
#[derive(Clone, Copy, Debug, PartialEq, Eq, Structural)]
pub enum RetriggerMode {
    /// With the song.
    FreeRun,
    FromBeat { anchor_beat: Beat },
    /// With the note.
    Note,
}

/// When a generator is evaluated: the position, and how far that is from where its
/// time may start.
#[derive(Clone, Copy, Debug, PartialEq, Eq, Structural)]
pub struct ModTime {
    pub beat: Beat,
    pub secs: Beat,
    /// The beats since that from which it is counted.
    pub beats_from_anchor: Beat,
    /// The beats since the note.
    pub beats_from_note: Beat,
    /// The seconds since the beat from which it is counted, or since the note.
    pub secs_from_anchor: Beat,
    /// The seconds since the note was let go, if it was.
    pub secs_from_release: Option<Beat>,
}

/// The beats since the time of a generator started.
pub open spec fn beats_since(t: ModTime, retrigger: RetriggerMode) -> Beat {
    match retrigger {
        RetriggerMode::FreeRun => t.beat,
        RetriggerMode::FromBeat { anchor_beat } => t.beats_from_anchor,
        RetriggerMode::Note => t.beats_from_note,
    }
}

/// The seconds since the time of a generator started.
pub open spec fn secs_since(t: ModTime, retrigger: RetriggerMode) -> Beat {
    match retrigger {
        RetriggerMode::FreeRun => t.secs,
        _ => t.secs_from_anchor,
    }
}

/// The seconds since the note was let go, of a generator that starts with it: none
/// before that.
pub open spec fn secs_let_go(t: ModTime, retrigger: RetriggerMode) -> Option<Beat> {
    match (retrigger, t.secs_from_release) {
        (RetriggerMode::Note, Some(d)) => if (Beat { bits: 0 }).le(d) {
            Some(d)
        } else {
            None
        },
        _ => None,
    }
}

/// The beats since the time of a generator started, see [`beats_since`].
pub fn elapsed_beats(t: ModTime, retrigger: RetriggerMode) -> (r: Beat)
    ensures
        r == beats_since(t, retrigger),
{
    match retrigger {
        RetriggerMode::FreeRun => t.beat,
        RetriggerMode::FromBeat { anchor_beat: _ } => t.beats_from_anchor,
        RetriggerMode::Note => t.beats_from_note,
    }
}

/// The seconds since the time of a generator started, see [`secs_since`].
pub fn elapsed_secs(t: ModTime, retrigger: RetriggerMode) -> (r: Beat)
    ensures
        r == secs_since(t, retrigger),
{
    match retrigger {
        RetriggerMode::FreeRun => t.secs,
        _ => t.secs_from_anchor,
    }
}

fn released_secs(t: ModTime, retrigger: RetriggerMode) -> (r: Option<Beat>)
    ensures
        r == secs_let_go(t, retrigger),
{
    match (retrigger, t.secs_from_release) {
        (RetriggerMode::Note, Some(d)) => if Beat::zero().le(d) {
            Some(d)
        } else {
            None
        },
        _ => None,
    }
}

/// What a generator is evaluated with, whatever kind it is.
#[derive(Clone, Copy, Debug, PartialEq, Eq, Structural)]
pub struct GenParams {
    /// How many rounds there were.
    pub cycle_pos: Beat,
    pub elapsed_beats: Beat,
    pub elapsed_secs: Beat,
    pub released_secs: Option<Beat>,
    pub adsr: AdsrConfig,
    pub lfo_phase: Setting,
    pub pulse_width: Setting,
    pub lfo_shape_amt: Setting,
    pub lfo_jitter: Setting,
    pub lfo_smooth: Setting,
    pub random_smooth: Setting,
    pub steps_slew: Setting,
}

/// Zero, as the bit pattern of a float.
pub const ZERO: u32 = 0x0000_0000;

/// One half, as the bit pattern of a float.
pub const HALF: u32 = 0x3f00_0000;

/// What a generator is evaluated with that has no settings of its own.
pub open spec fn plain_params(cycle_pos: Beat, t: ModTime, retrigger: RetriggerMode) -> GenParams {
    let zero = Setting { bits: ZERO };
    let half = Setting { bits: HALF };
    GenParams {
        cycle_pos,
        elapsed_beats: beats_since(t, retrigger),
        elapsed_secs: secs_since(t, retrigger),
        released_secs: secs_let_go(t, retrigger),
        adsr: AdsrConfig { attack_ms: zero, decay_ms: zero, sustain: zero, release_ms: zero },
        lfo_phase: zero,
        pulse_width: half,
        lfo_shape_amt: half,
        lfo_jitter: zero,
        lfo_smooth: zero,
        random_smooth: zero,
        steps_slew: zero,
    }
}

impl GenParams {
    /// What a generator is evaluated with as long as nothing modulates it: the time,
    /// its own settings, and for what it has not got those that change nothing.
    pub fn from_config(kind: &ModSourceKind, cycle_pos: Beat, t: ModTime, retrigger: RetriggerMode) -> (r: GenParams)
        ensures
            r == match *kind {
                ModSourceKind::Lfo(c) => GenParams {
                    lfo_phase: c.phase,
                    pulse_width: match c.shape {
                        LfoShape::Pulse { width } => width,
                        _ => Setting { bits: HALF },
                    },
                    lfo_shape_amt: c.shape_amt,
                    lfo_jitter: c.jitter,
                    lfo_smooth: c.smooth,
                    ..plain_params(cycle_pos, t, retrigger)
                },
                ModSourceKind::Random { seed, smooth } => GenParams { random_smooth: smooth, ..plain_params(cycle_pos, t, retrigger) },
                ModSourceKind::Steps { direction, slew } => GenParams { steps_slew: slew, ..plain_params(cycle_pos, t, retrigger) },
                ModSourceKind::Adsr(c) => GenParams { adsr: c, ..plain_params(cycle_pos, t, retrigger) },
                _ => plain_params(cycle_pos, t, retrigger),
            },
    {
        let zero = Setting { bits: ZERO };
        let half = Setting { bits: HALF };
        let mut r = GenParams {
            cycle_pos,
            elapsed_beats: elapsed_beats(t, retrigger),
            elapsed_secs: elapsed_secs(t, retrigger),
            released_secs: released_secs(t, retrigger),
            adsr: AdsrConfig { attack_ms: zero, decay_ms: zero, sustain: zero, release_ms: zero },
            lfo_phase: zero,
            pulse_width: half,
            lfo_shape_amt: half,
            lfo_jitter: zero,
            lfo_smooth: zero,
            random_smooth: zero,
            steps_slew: zero,
        };
        match kind {
            ModSourceKind::Lfo(c) => {
                r.lfo_phase = c.phase;
                if let LfoShape::Pulse { width } = c.shape {
                    r.pulse_width = width;
                }
                r.lfo_shape_amt = c.shape_amt;
                r.lfo_jitter = c.jitter;
                r.lfo_smooth = c.smooth;
            },
            ModSourceKind::Random { seed: _, smooth } => {
                r.random_smooth = *smooth;
            },
            ModSourceKind::Steps { direction: _, slew } => {
                r.steps_slew = *slew;
            },
            ModSourceKind::Adsr(c) => {
                r.adsr = *c;
            },
            _ => {},
        }
        r
    }
}

/// Going forward, the next step is shown next, and the first one behind the last; going
/// backward it is the other way round. Going back and forth starts at the first step, and
/// turns at the last.
pub proof fn law_steps_go_round(k: int, n: int)
    requires
        n > 0,
        k >= 0,
    ensures
        ({
            let a = shown_at(StepsDirection::Forward, k, n);
            let b = shown_at(StepsDirection::Forward, k + 1, n);
            0 <= a < n && shown_at(StepsDirection::Forward, 0, n) == 0 && b == if a == n - 1 {
                0
            } else {
                a + 1
            }
        }),
        ({
            let a = shown_at(StepsDirection::Backward, k, n);
            let b = shown_at(StepsDirection::Backward, k + 1, n);
            0 <= a < n && shown_at(StepsDirection::Backward, 0, n) == n - 1 && b == if a == 0 {
                n - 1
            } else {
                a - 1
            }
        }),
        shown_at(StepsDirection::PingPong, 0, n) == 0,
        shown_at(StepsDirection::PingPong, n - 1, n) == n - 1,
{
    assert((k + 1) % n == if k % n == n - 1 {
        0
    } else {
        k % n + 1
    }) by (nonlinear_arith)
        requires
            n > 0,
            k >= 0,
    ;
    assert(0int % n == 0) by (nonlinear_arith)
        requires
            n > 0,
    ;
    if n > 1 {
        let m = 2 * n - 2;
        assert(0int % m == 0) by (nonlinear_arith)
            requires
                m > 0,
        ;
        assert((n - 1) % m == n - 1) by (nonlinear_arith)
            requires
                m == 2 * n - 2,
                n > 1,
        ;
    }
}

} // verus!
