//! Keys: a root and a scale, and the names of pitches in them.

use crate::beat::Beat;
use vstd::prelude::*;

verus! {

/// A scale.
#[derive(Clone, Copy, Debug, PartialEq, Eq, Hash, Structural)]
pub enum Scale {
    Major,
    NaturalMinor,
    Dorian,
    Phrygian,
    Lydian,
    Mixolydian,
    Locrian,
    HarmonicMinor,
    MelodicMinor,
    MajorPentatonic,
    MinorPentatonic,
    Blues,
    WholeTone,
    Diminished,
    HalfWholeDim,
    Chromatic,
    HarmonicMajor,
    DoubleHarmonic,
    LydianDominant,
    PhrygianDominant,
    HungarianMinor,
    Japanese,
    /// One bit for each semitone above the root; the bits above the twelfth do
    /// not count.
    Custom(u16),
}

/// Whether bit `d` of `m` is set.
pub open spec fn bit_set(m: u16, d: u16) -> bool {
    (m >> d) & 1 == 1
}

/// The steps of a scale that is no custom one, in semitones above the root.
pub open spec fn steps_of(scale: Scale) -> Seq<u8> {
    match scale {
        Scale::Major => seq![0, 2, 4, 5, 7, 9, 11],
        Scale::NaturalMinor => seq![0, 2, 3, 5, 7, 8, 10],
        Scale::Dorian => seq![0, 2, 3, 5, 7, 9, 10],
        Scale::Phrygian => seq![0, 1, 3, 5, 7, 8, 10],
        Scale::Lydian => seq![0, 2, 4, 6, 7, 9, 11],
        Scale::Mixolydian => seq![0, 2, 4, 5, 7, 9, 10],
        Scale::Locrian => seq![0, 1, 3, 5, 6, 8, 10],
        Scale::HarmonicMinor => seq![0, 2, 3, 5, 7, 8, 11],
        Scale::MelodicMinor => seq![0, 2, 3, 5, 7, 9, 11],
        Scale::MajorPentatonic => seq![0, 2, 4, 7, 9],
        Scale::MinorPentatonic => seq![0, 3, 5, 7, 10],
        Scale::Blues => seq![0, 3, 5, 6, 7, 10],
        Scale::WholeTone => seq![0, 2, 4, 6, 8, 10],
        Scale::Diminished => seq![0, 2, 3, 5, 6, 8, 9, 11],
        Scale::HalfWholeDim => seq![0, 1, 3, 4, 6, 7, 9, 10],
        Scale::Chromatic => seq![0, 1, 2, 3, 4, 5, 6, 7, 8, 9, 10, 11],
        Scale::HarmonicMajor => seq![0, 2, 4, 5, 7, 8, 11],
        Scale::DoubleHarmonic => seq![0, 1, 4, 5, 7, 8, 11],
        Scale::LydianDominant => seq![0, 2, 4, 6, 7, 9, 10],
        Scale::PhrygianDominant => seq![0, 1, 4, 5, 7, 8, 10],
        Scale::HungarianMinor => seq![0, 2, 3, 6, 7, 8, 11],
        Scale::Japanese => seq![0, 1, 5, 7, 8],
        Scale::Custom(_) => Seq::empty(),
    }
}

/// Whether a scale holds the semitone `d` above its root.
pub open spec fn has_step(scale: Scale, d: u16) -> bool {
    match scale {
        Scale::Custom(m) => d < 12 && bit_set(m, d),
        _ => d < 12 && steps_of(scale).contains(d as u8),
    }
}

/// The name that a scale is shown by.
pub open spec fn name_of(scale: Scale) -> Seq<char> {
    match scale {
        Scale::Major => "Major"@,
        Scale::NaturalMinor => "Minor"@,
        Scale::Dorian => "Dorian"@,
        Scale::Phrygian => "Phrygian"@,
        Scale::Lydian => "Lydian"@,
        Scale::Mixolydian => "Mixolydian"@,
        Scale::Locrian => "Locrian"@,
        Scale::HarmonicMinor => "Harmonic Minor"@,
        Scale::MelodicMinor => "Melodic Minor"@,
        Scale::MajorPentatonic => "Major Pentatonic"@,
        Scale::MinorPentatonic => "Minor Pentatonic"@,
        Scale::Blues => "Blues"@,
        Scale::WholeTone => "Whole Tone"@,
        Scale::Diminished => "Diminished"@,
        Scale::HalfWholeDim => "Half-Whole Diminished"@,
        Scale::Chromatic => "Chromatic"@,
        Scale::HarmonicMajor => "Harmonic Major"@,
        Scale::DoubleHarmonic => "Double Harmonic"@,
        Scale::LydianDominant => "Lydian Dominant"@,
        Scale::PhrygianDominant => "Phrygian Dominant"@,
        Scale::HungarianMinor => "Hungarian Minor"@,
        Scale::Japanese => "Japanese"@,
        Scale::Custom(_) => "Custom"@,
    }
}

/// One bit for each of the given semitones.
fn bits_from(steps: Vec<u8>) -> (m: u16)
    requires
        forall|i: int| 0 <= i < steps@.len() ==> #[trigger] steps@[i] < 12,
    ensures
        m <= 0x0fff,
        forall|d: u16| d < 12 ==> #[trigger] bit_set(m, d) == steps@.contains(d as u8),
{
    let mut m: u16 = 0;
    let mut i: usize = 0;
    proof {
        assert forall|d: u16| d < 12 implies #[trigger] bit_set(m, d) == steps@.take(0).contains(d as u8) by {
            assert((0u16 >> d) & 1 == 0) by (bit_vector)
                requires
                    d < 12,
            ;
        }
    }
    while i < steps.len()
        invariant
            forall|i: int| 0 <= i < steps@.len() ==> #[trigger] steps@[i] < 12,
            i <= steps@.len(),
            m <= 0x0fff,
            forall|d: u16| d < 12 ==> #[trigger] bit_set(m, d) == steps@.take(i as int).contains(d as u8),
        decreases steps@.len() - i,
    {
        let k: u16 = steps[i] as u16;
        let next: u16 = m | (1u16 << k);
        proof {
            assert(next <= 0x0fff) by (bit_vector)
                requires
                    k < 12,
                    m <= 0x0fff,
                    next == m | (1u16 << k),
            ;
            let before = steps@.take(i as int);
            let after = steps@.take(i + 1);
            assert(after =~= before.push(k as u8));
            assert forall|d: u16| d < 12 implies #[trigger] bit_set(next, d) == after.contains(d as u8) by {
                assert(((next >> d) & 1 == 1) == (((m >> d) & 1 == 1) || d == k)) by (bit_vector)
                    requires
                        k < 12,
                        d < 12,
                        next == m | (1u16 << k),
                ;
                assert(bit_set(m, d) == before.contains(d as u8));
                if before.contains(d as u8) {
                    let a = choose|a: int| 0 <= a < before.len() && before[a] == d as u8;
                    assert(after[a] == d as u8);
                }
                if d == k {
                    assert(after[i as int] == d as u8);
                }
                if after.contains(d as u8) && d != k {
                    let a = choose|a: int| 0 <= a < after.len() && after[a] == d as u8;
                    assert(before[a] == d as u8);
                }
            }
        }
        m = next;
        i += 1;
    }
    assert(steps@.take(i as int) =~= steps@);
    m
}

impl Scale {
    /// The scales to choose from, all but the custom one.
    pub fn all_presets() -> (r: Vec<Scale>)
        ensures
            r@.len() == 22,
            r@.no_duplicates(),
            forall|s: Scale| !(s is Custom) <==> #[trigger] r@.contains(s),
    {
        let r = vec![
            Scale::Major,
            Scale::NaturalMinor,
            Scale::Dorian,
            Scale::Phrygian,
            Scale::Lydian,
            Scale::Mixolydian,
            Scale::Locrian,
            Scale::HarmonicMinor,
            Scale::MelodicMinor,
            Scale::MajorPentatonic,
            Scale::MinorPentatonic,
            Scale::Blues,
            Scale::WholeTone,
            Scale::Diminished,
            Scale::HalfWholeDim,
            Scale::Chromatic,
            Scale::HarmonicMajor,
            Scale::DoubleHarmonic,
            Scale::LydianDominant,
            Scale::PhrygianDominant,
            Scale::HungarianMinor,
            Scale::Japanese,
        ];
        proof {
            assert forall|s: Scale| !(s is Custom) implies #[trigger] r@.contains(s) by {
                let i: int = match s {
                    Scale::Major => 0,
                    Scale::NaturalMinor => 1,
                    Scale::Dorian => 2,
                    Scale::Phrygian => 3,
                    Scale::Lydian => 4,
                    Scale::Mixolydian => 5,
                    Scale::Locrian => 6,
                    Scale::HarmonicMinor => 7,
                    Scale::MelodicMinor => 8,
                    Scale::MajorPentatonic => 9,
                    Scale::MinorPentatonic => 10,
                    Scale::Blues => 11,
                    Scale::WholeTone => 12,
                    Scale::Diminished => 13,
                    Scale::HalfWholeDim => 14,
                    Scale::Chromatic => 15,
                    Scale::HarmonicMajor => 16,
                    Scale::DoubleHarmonic => 17,
                    Scale::LydianDominant => 18,
                    Scale::PhrygianDominant => 19,
                    Scale::HungarianMinor => 20,
                    _ => 21,
                };
                assert(r@[i] == s);
            }
        }
        r
    }

    /// The steps of the scale, one bit for each semitone above the root.
    pub fn pitch_class_mask(self) -> (m: u16)
        ensures
            m <= 0x0fff,
            forall|d: u16| d < 12 ==> #[trigger] bit_set(m, d) == has_step(self, d),
    {
        match self {
            Scale::Custom(m) => {
                let r: u16 = m & 0x0fff;
                proof {
                    assert(r <= 0x0fff) by (bit_vector)
                        requires
                            r == m & 0x0fff,
                    ;
                    assert forall|d: u16| d < 12 implies #[trigger] bit_set(r, d) == has_step(self, d) by {
                        assert((r >> d) & 1 == (m >> d) & 1) by (bit_vector)
                            requires
                                d < 12,
                                r == m & 0x0fff,
                        ;
                    }
                }
                r
            },
            Scale::Major => bits_from(vec![0, 2, 4, 5, 7, 9, 11]),
            Scale::NaturalMinor => bits_from(vec![0, 2, 3, 5, 7, 8, 10]),
            Scale::Dorian => bits_from(vec![0, 2, 3, 5, 7, 9, 10]),
            Scale::Phrygian => bits_from(vec![0, 1, 3, 5, 7, 8, 10]),
            Scale::Lydian => bits_from(vec![0, 2, 4, 6, 7, 9, 11]),
            Scale::Mixolydian => bits_from(vec![0, 2, 4, 5, 7, 9, 10]),
            Scale::Locrian => bits_from(vec![0, 1, 3, 5, 6, 8, 10]),
            Scale::HarmonicMinor => bits_from(vec![0, 2, 3, 5, 7, 8, 11]),
            Scale::MelodicMinor => bits_from(vec![0, 2, 3, 5, 7, 9, 11]),
            Scale::MajorPentatonic => bits_from(vec![0, 2, 4, 7, 9]),
            Scale::MinorPentatonic => bits_from(vec![0, 3, 5, 7, 10]),
            Scale::Blues => bits_from(vec![0, 3, 5, 6, 7, 10]),
            Scale::WholeTone => bits_from(vec![0, 2, 4, 6, 8, 10]),
            Scale::Diminished => bits_from(vec![0, 2, 3, 5, 6, 8, 9, 11]),
            Scale::HalfWholeDim => bits_from(vec![0, 1, 3, 4, 6, 7, 9, 10]),
            Scale::Chromatic => bits_from(vec![0, 1, 2, 3, 4, 5, 6, 7, 8, 9, 10, 11]),
            Scale::HarmonicMajor => bits_from(vec![0, 2, 4, 5, 7, 8, 11]),
            Scale::DoubleHarmonic => bits_from(vec![0, 1, 4, 5, 7, 8, 11]),
            Scale::LydianDominant => bits_from(vec![0, 2, 4, 6, 7, 9, 10]),
            Scale::PhrygianDominant => bits_from(vec![0, 1, 4, 5, 7, 8, 10]),
            Scale::HungarianMinor => bits_from(vec![0, 2, 3, 6, 7, 8, 11]),
            Scale::Japanese => bits_from(vec![0, 1, 5, 7, 8]),
        }
    }

    /// The name that the scale is shown by.
    pub fn display_name(self) -> (r: &'static str)
        ensures
            r@ == name_of(self),
    {
        match self {
            Scale::Major => "Major",
            Scale::NaturalMinor => "Minor",
            Scale::Dorian => "Dorian",
            Scale::Phrygian => "Phrygian",
            Scale::Lydian => "Lydian",
            Scale::Mixolydian => "Mixolydian",
            Scale::Locrian => "Locrian",
            Scale::HarmonicMinor => "Harmonic Minor",
            Scale::MelodicMinor => "Melodic Minor",
            Scale::MajorPentatonic => "Major Pentatonic",
            Scale::MinorPentatonic => "Minor Pentatonic",
            Scale::Blues => "Blues",
            Scale::WholeTone => "Whole Tone",
            Scale::Diminished => "Diminished",
            Scale::HalfWholeDim => "Half-Whole Diminished",
            Scale::Chromatic => "Chromatic",
            Scale::HarmonicMajor => "Harmonic Major",
            Scale::DoubleHarmonic => "Double Harmonic",
            Scale::LydianDominant => "Lydian Dominant",
            Scale::PhrygianDominant => "Phrygian Dominant",
            Scale::HungarianMinor => "Hungarian Minor",
            Scale::Japanese => "Japanese",
            Scale::Custom(_) => "Custom",
        }
    }
}

/// Every scale but a custom one holds its root.
pub proof fn law_presets_have_their_root(scale: Scale)
    requires
        !(scale is Custom),
    ensures
        has_step(scale, 0),
{
    assert(steps_of(scale)[0] == 0);
}

// ---------------------------------------------------------------------------
// Names of pitches
// ---------------------------------------------------------------------------

/// The name of a pitch class, spelled with sharps.
pub open spec fn sharp_name(pc: int) -> Seq<char> {
    if pc == 0 {
        "C"@
    } else if pc == 1 {
        "C#"@
    } else if pc == 2 {
        "D"@
    } else if pc == 3 {
        "D#"@
    } else if pc == 4 {
        "E"@
    } else if pc == 5 {
        "F"@
    } else if pc == 6 {
        "F#"@
    } else if pc == 7 {
        "G"@
    } else if pc == 8 {
        "G#"@
    } else if pc == 9 {
        "A"@
    } else if pc == 10 {
        "A#"@
    } else {
        "B"@
    }
}

/// The name of a pitch class, spelled with flats.
pub open spec fn flat_name(pc: int) -> Seq<char> {
    if pc == 1 {
        "Db"@
    } else if pc == 3 {
        "Eb"@
    } else if pc == 6 {
        "Gb"@
    } else if pc == 8 {
        "Ab"@
    } else if pc == 10 {
        "Bb"@
    } else {
        sharp_name(pc)
    }
}

/// The name of a pitch class, spelled with sharps.
pub fn pitch_class_name(pc: u8) -> (r: &'static str)
    ensures
        r@ == sharp_name((pc % 12) as int),
{
    match pc % 12 {
        0 => "C",
        1 => "C#",
        2 => "D",
        3 => "D#",
        4 => "E",
        5 => "F",
        6 => "F#",
        7 => "G",
        8 => "G#",
        9 => "A",
        10 => "A#",
        _ => "B",
    }
}

/// How many semitones the tonic of the major scale with the same signature lies
/// above the root. None for scales that have no such major scale.
pub open spec fn above_to_major(scale: Scale) -> Option<int> {
    match scale {
        Scale::Major | Scale::MajorPentatonic | Scale::HarmonicMajor => Some(0),
        Scale::Dorian => Some(10),
        Scale::Phrygian => Some(8),
        Scale::Lydian => Some(7),
        Scale::Mixolydian => Some(5),
        Scale::NaturalMinor | Scale::MinorPentatonic | Scale::Blues | Scale::HarmonicMinor | Scale::MelodicMinor => Some(
            3,
        ),
        Scale::Locrian => Some(1),
        _ => None,
    }
}

/// How many fifths a pitch class lies above C.
pub open spec fn fifths(pc: int) -> int {
    (pc * 7) % 12
}

/// Whether a key is spelled with flats: its signature lies more than six fifths
/// up the circle. Keys without a major scale are spelled with sharps.
pub open spec fn spelled_flat(root: int, scale: Scale) -> bool {
    match above_to_major(scale) {
        Some(up) => fifths((root + up) % 12) > 6,
        None => false,
    }
}

/// Whether a key is spelled with flats, see [`spelled_flat`].
pub fn prefers_flats(root: u8, scale: Scale) -> (r: bool)
    ensures
        r == spelled_flat(root as int, scale),
{
    let up: u32 = match scale {
        Scale::Major | Scale::MajorPentatonic | Scale::HarmonicMajor => 0,
        Scale::Dorian => 10,
        Scale::Phrygian => 8,
        Scale::Lydian => 7,
        Scale::Mixolydian => 5,
        Scale::NaturalMinor | Scale::MinorPentatonic | Scale::Blues | Scale::HarmonicMinor | Scale::MelodicMinor => 3,
        Scale::Locrian => 1,
        _ => {
            return false;
        },
    };
    let major: u32 = (root as u32 + up) % 12;
    (major * 7) % 12 > 6
}

/// The name of a pitch class, spelled as the key asks.
pub fn pitch_class_name_in_key(pc: u8, root: u8, scale: Scale) -> (r: &'static str)
    ensures
        r@ == if spelled_flat(root as int, scale) {
            flat_name((pc % 12) as int)
        } else {
            sharp_name((pc % 12) as int)
        },
{
    if prefers_flats(root, scale) {
        match pc % 12 {
            1 => "Db",
            3 => "Eb",
            6 => "Gb",
            8 => "Ab",
            10 => "Bb",
            _ => pitch_class_name(pc),
        }
    } else {
        pitch_class_name(pc)
    }
}

/// How a key is spelled does not change with the octave of its root.
pub proof fn law_spelling_is_by_pitch_class(root: int, scale: Scale)
    requires
        0 <= root,
    ensures
        spelled_flat(root, scale) == spelled_flat(root + 12, scale),
{
}

// ---------------------------------------------------------------------------
// Keys on the timeline
// ---------------------------------------------------------------------------

/// From here on the song is in this key.
#[derive(Clone, Copy, Debug, PartialEq, Eq, Structural)]
pub struct ScaleChange {
    pub beat: Beat,
    /// The pitch class of the root; zero is C.
    pub root: u8,
    pub scale: Scale,
}

impl ScaleChange {
    /// Whether a pitch is in the key.
    pub open spec fn spec_contains(self, pitch: int) -> bool {
        has_step(self.scale, ((pitch - self.root) % 12) as u16)
    }

    /// How many pitches of the key lie above `a`, up to and with `b`.
    pub open spec fn tally(self, a: int, b: int) -> nat
        decreases b - a,
    {
        if b <= a {
            0
        } else {
            self.tally(a, b - 1) + if self.spec_contains(b) {
                1nat
            } else {
                0nat
            }
        }
    }

    /// Whether a pitch can be snapped to: a key of the keyboard that is in the
    /// key, no more than an octave away.
    pub open spec fn can_snap(self, pitch: int, q: int) -> bool {
        0 <= q <= 127 && self.spec_contains(q) && -12 <= q - pitch <= 12
    }

    /// Whether `r` is at least as near to `pitch` as `q` is, where of two at the
    /// same distance the upper is the nearer.
    pub open spec fn is_nearer(pitch: int, r: int, q: int) -> bool {
        let a = if r >= pitch {
            r - pitch
        } else {
            pitch - r
        };
        let b = if q >= pitch {
            q - pitch
        } else {
            pitch - q
        };
        a < b || (a == b && r >= q)
    }

    /// Whether `q` is reached from `pitch` by the given number of steps of the
    /// scale, up or down, without leaving the keyboard.
    pub open spec fn reaches(self, pitch: int, steps: int, q: int) -> bool {
        &&& 0 <= q <= 127
        &&& self.spec_contains(q)
        &&& if steps > 0 {
            pitch < q && self.tally(pitch, q) == steps
        } else {
            q < pitch <= 128 && self.tally(q - 1, pitch - 1) == -steps
        }
    }

    /// Whether a pitch is in the key.
    pub fn contains(&self, pitch: u8) -> (r: bool)
        ensures
            r == self.spec_contains(pitch as int),
    {
        let p: u32 = pitch as u32 + 264;
        let d: u32 = (p - self.root as u32) % 12;
        proof {
            assert((p - self.root) % 12 == (pitch - self.root) % 12);
        }
        let m: u16 = self.scale.pitch_class_mask();
        let k: u16 = d as u16;
        assert(bit_set(m, k) == has_step(self.scale, k));
        (m >> k) & 1 == 1
    }

    /// The nearest pitch of the key; of two the upper one. A pitch that none is
    /// near to stays.
    pub fn snap(&self, pitch: u8) -> (r: u8)
        ensures
            self.spec_contains(pitch as int) ==> r == pitch,
            !self.spec_contains(pitch as int) && (exists|q: int| self.can_snap(pitch as int, q)) ==> self.can_snap(
                pitch as int,
                r as int,
            ) && forall|q: int| self.can_snap(pitch as int, q) ==> Self::is_nearer(pitch as int, r as int, q),
            !self.spec_contains(pitch as int) && !(exists|q: int| self.can_snap(pitch as int, q)) ==> r == pitch,
    {
        if self.contains(pitch) {
            return pitch;
        }
        let p: i32 = pitch as i32;
        let mut off: i32 = 1;
        while off <= 12
            invariant
                !self.spec_contains(pitch as int),
                p == pitch,
                1 <= off <= 13,
                forall|q: int| self.can_snap(pitch as int, q) ==> !(-off < q - pitch < off),
            decreases 13 - off,
        {
            let up: i32 = p + off;
            if up <= 127 && self.contains(up as u8) {
                assert(self.can_snap(pitch as int, up as int));
                return up as u8;
            }
            let down: i32 = p - off;
            if 0 <= down && down <= 127 && self.contains(down as u8) {
                assert(self.can_snap(pitch as int, down as int));
                return down as u8;
            }
            off += 1;
        }
        pitch
    }

    /// The pitch a number of steps of the scale away. A pitch that is not in the
    /// key stays, and so does one that would leave the keyboard.
    pub fn step_transpose(&self, pitch: u8, steps: i32) -> (r: u8)
        ensures
            steps == 0 || !self.spec_contains(pitch as int) ==> r == pitch,
            steps != 0 && self.spec_contains(pitch as int) && (exists|q: int|
                self.reaches(pitch as int, steps as int, q)) ==> self.reaches(pitch as int, steps as int, r as int),
            !(exists|q: int| self.reaches(pitch as int, steps as int, q)) ==> r == pitch,
    {
        if steps == 0 || !self.contains(pitch) {
            return pitch;
        }
        if steps > 0 {
            self.climb(pitch, steps)
        } else {
            self.descend(pitch, steps)
        }
    }

    fn climb(&self, pitch: u8, steps: i32) -> (r: u8)
        requires
            steps > 0,
            self.spec_contains(pitch as int),
        ensures
            (exists|q: int| self.reaches(pitch as int, steps as int, q)) ==> self.reaches(
                pitch as int,
                steps as int,
                r as int,
            ),
            !(exists|q: int| self.reaches(pitch as int, steps as int, q)) ==> r == pitch,
    {
        let ghost from = pitch as int;
        let mut p: u8 = pitch;
        let mut remaining: i32 = steps;
        while remaining > 0
            invariant
                from == pitch,
                steps > 0,
                from <= p,
                p <= 127 || p == pitch,
                0 <= remaining <= steps,
                self.tally(from, p as int) == steps - remaining,
                remaining < steps ==> from < p && self.spec_contains(p as int),
            decreases remaining,
        {
            if p >= 127 {
                proof {
                    assert forall|q: int| !self.reaches(from, steps as int, q) by {
                        if from < q <= 127 {
                            self.lemma_tally_grows(from, q, p as int);
                        }
                    }
                }
                return pitch;
            }
            p = p + 1;
            while !self.contains(p)
                invariant
                    from == pitch,
                    steps > 0,
                    from < p <= 127,
                    remaining > 0,
                    self.tally(from, p - 1) == steps - remaining,
                decreases 128 - p,
            {
                if p == 127 {
                    proof {
                        assert forall|q: int| !self.reaches(from, steps as int, q) by {
                            if from < q <= 127 {
                                self.lemma_tally_grows(from, q, 127);
                            }
                        }
                    }
                    return pitch;
                }
                p = p + 1;
            }
            remaining -= 1;
        }
        assert(self.reaches(from, steps as int, p as int));
        p
    }

    fn descend(&self, pitch: u8, steps: i32) -> (r: u8)
        requires
            steps < 0,
            self.spec_contains(pitch as int),
        ensures
            (exists|q: int| self.reaches(pitch as int, steps as int, q)) ==> self.reaches(
                pitch as int,
                steps as int,
                r as int,
            ),
            !(exists|q: int| self.reaches(pitch as int, steps as int, q)) ==> r == pitch,
    {
        let ghost from = pitch as int;
        if pitch > 128 {
            return pitch;
        }
        let mut p: u8 = pitch;
        let mut remaining: i32 = steps;
        while remaining < 0
            invariant
                from == pitch,
                from <= 128,
                steps < 0,
                0 <= p <= from,
                steps <= remaining <= 0,
                self.tally(p - 1, from - 1) == remaining - steps,
                remaining > steps ==> p < from && self.spec_contains(p as int),
            decreases -remaining,
        {
            if p == 0 {
                proof {
                    assert forall|q: int| !self.reaches(from, steps as int, q) by {
                        if 0 <= q < from {
                            self.lemma_tally_from(-1, q - 1, from - 1);
                        }
                    }
                }
                return pitch;
            }
            proof {
                self.lemma_tally_first(p - 2, from - 1);
            }
            p = p - 1;
            while !self.contains(p)
                invariant
                    from == pitch,
                    from <= 128,
                    steps < 0,
                    0 <= p < from,
                    remaining < 0,
                    self.tally(p as int, from - 1) == remaining - steps,
                decreases p,
            {
                proof {
                    self.lemma_tally_first(p - 1, from - 1);
                }
                if p == 0 {
                    proof {
                        assert forall|q: int| !self.reaches(from, steps as int, q) by {
                            if 0 <= q < from {
                                self.lemma_tally_from(-1, q - 1, from - 1);
                            }
                        }
                    }
                    return pitch;
                }
                p = p - 1;
            }
            proof {
                self.lemma_tally_first(p - 1, from - 1);
            }
            remaining += 1;
        }
        assert(self.reaches(from, steps as int, p as int));
        p
    }

    proof fn lemma_tally_grows(self, a: int, b: int, c: int)
        ensures
            b <= c ==> self.tally(a, b) <= self.tally(a, c),
        decreases c - b,
    {
        if b < c {
            self.lemma_tally_grows(a, b, c - 1);
        }
    }

    proof fn lemma_tally_first(self, a: int, b: int)
        ensures
            a < b ==> self.tally(a, b) == self.tally(a + 1, b) + if self.spec_contains(a + 1) {
                1nat
            } else {
                0nat
            },
        decreases b - a,
    {
        if a + 1 < b {
            self.lemma_tally_first(a, b - 1);
        } else if a < b {
            assert(self.tally(a, b - 1) == 0);
        }
    }

    proof fn lemma_tally_from(self, a: int, b: int, c: int)
        ensures
            a <= b ==> self.tally(b, c) <= self.tally(a, c),
        decreases b - a,
    {
        if a < b {
            self.lemma_tally_from(a + 1, b, c);
            self.lemma_tally_first(a, c);
        }
    }
}

/// On the keyboard a scale that is not empty has a pitch near every pitch, so
/// that snapping always lands in the key.
pub proof fn law_snap_lands_in_the_key(key: ScaleChange, pitch: u8, d: u16)
    requires
        pitch <= 127,
        has_step(key.scale, d),
    ensures
        exists|q: int| key.can_snap(pitch as int, q),
{
    let want = (d + key.root) % 12;
    let up = (want - pitch) % 12;
    let q = pitch + up;
    assert((q - key.root) % 12 == d as int) by {
        assert(q % 12 == want % 12);
        assert((want - key.root) % 12 == d as int);
    }
    let r = if q <= 127 {
        q
    } else {
        q - 12
    };
    assert((r - key.root) % 12 == d as int);
    assert(key.can_snap(pitch as int, r));
}

/// Steps back undo steps: from a pitch of the key, what the steps reach leads
/// back to it.
pub proof fn law_steps_back_undo_steps(key: ScaleChange, pitch: int, steps: int, q: int)
    requires
        0 <= pitch <= 127,
        key.spec_contains(pitch),
        steps != 0,
        key.reaches(pitch, steps, q),
    ensures
        key.reaches(q, -steps, pitch),
{
    if steps > 0 {
        key.lemma_tally_first(pitch - 1, q);
        assert(key.tally(pitch - 1, q - 1) == key.tally(pitch, q));
    } else {
        key.lemma_tally_first(q - 1, pitch);
        assert(key.tally(q, pitch) == key.tally(q - 1, pitch - 1));
    }
}

/// At most one pitch is reached by a number of steps.
pub proof fn law_steps_reach_one_pitch(key: ScaleChange, pitch: int, steps: int, a: int, b: int)
    requires
        steps != 0,
        key.reaches(pitch, steps, a),
        key.reaches(pitch, steps, b),
    ensures
        a == b,
{
    if steps > 0 {
        if a < b {
            key.lemma_tally_grows(pitch, a, b - 1);
        } else if b < a {
            key.lemma_tally_grows(pitch, b, a - 1);
        }
    } else {
        if a < b {
            key.lemma_tally_first(a - 1, pitch - 1);
            key.lemma_tally_from(a, b - 1, pitch - 1);
        } else if b < a {
            key.lemma_tally_first(b - 1, pitch - 1);
            key.lemma_tally_from(b, a - 1, pitch - 1);
        }
    }
}

} // verus!
