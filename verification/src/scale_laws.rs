//! How scales relate.

use crate::scale;
use crate::scale::Scale;
use vstd::prelude::*;

verus! {

/// Whether a scale has the steps of another one that is played from `by` semitones above
/// its root.
pub open spec fn is_mode_of(scale: Scale, other: Scale, by: int) -> bool {
    forall|d: int|
        0 <= d < 12 ==> (#[trigger] scale::has_step(scale, d as u16) <==> scale::has_step(other, ((d + by) % 12) as u16))
}

/// Whether two scales have the same steps but for one, which is lower in the first.
pub open spec fn differs_by_a_step(scale: Scale, other: Scale, own: int, its: int) -> bool {
    forall|d: int|
        0 <= d < 12 && d != own && d != its ==> (#[trigger] scale::has_step(scale, d as u16) <==> scale::has_step(other, d as u16))
}

/// The church modes are the major scale played from its other steps, and so is the minor
/// scale.
#[verifier::rlimit(60)]
pub proof fn law_modes_are_one_scale()
    ensures
        is_mode_of(Scale::Dorian, Scale::Major, 2),
        is_mode_of(Scale::Phrygian, Scale::Major, 4),
        is_mode_of(Scale::Lydian, Scale::Major, 5),
        is_mode_of(Scale::Mixolydian, Scale::Major, 7),
        is_mode_of(Scale::NaturalMinor, Scale::Major, 9),
        is_mode_of(Scale::Locrian, Scale::Major, 11),
{
    lemma_member_seven(Scale::Major, 0, 2, 4, 5, 7, 9, 11);
    lemma_member_seven(Scale::Dorian, 0, 2, 3, 5, 7, 9, 10);
    lemma_member_seven(Scale::Phrygian, 0, 1, 3, 5, 7, 8, 10);
    lemma_member_seven(Scale::Lydian, 0, 2, 4, 6, 7, 9, 11);
    lemma_member_seven(Scale::Mixolydian, 0, 2, 4, 5, 7, 9, 10);
    lemma_member_seven(Scale::NaturalMinor, 0, 2, 3, 5, 7, 8, 10);
    lemma_member_seven(Scale::Locrian, 0, 1, 3, 5, 6, 8, 10);
}

proof fn lemma_member_seven(scale: Scale, a: u8, b: u8, c: u8, d: u8, e: u8, f: u8, g: u8)
    requires
        !(scale is Custom),
        scale::steps_of(scale) == seq![a, b, c, d, e, f, g],
    ensures
        forall|x: u16|
            x < 12 ==> (#[trigger] scale::has_step(scale, x) <==> x == a || x == b || x == c || x == d || x == e || x == f || x
                == g),
{
    let s = seq![a, b, c, d, e, f, g];
    assert(s[0] == a && s[1] == b && s[2] == c && s[3] == d && s[4] == e && s[5] == f && s[6] == g);
    assert forall|x: u16|
        x < 12 implies (#[trigger] scale::has_step(scale, x) <==> x == a || x == b || x == c || x == d || x == e || x == f || x
        == g) by {
        let y = x as u8;
        if s.contains(y) {
            let i = choose|i: int| 0 <= i < s.len() && s[i] == y;
            assert(i == 0 || i == 1 || i == 2 || i == 3 || i == 4 || i == 5 || i == 6);
        }
        if y == a {
            assert(s.contains(s[0]));
        }
        if y == b {
            assert(s.contains(s[1]));
        }
        if y == c {
            assert(s.contains(s[2]));
        }
        if y == d {
            assert(s.contains(s[3]));
        }
        if y == e {
            assert(s.contains(s[4]));
        }
        if y == f {
            assert(s.contains(s[5]));
        }
        if y == g {
            assert(s.contains(s[6]));
        }
    }
}

/// The harmonic and melodic scales differ from the minor and the major one by a step, and
/// the dominant and Hungarian ones are modes of them.
#[verifier::rlimit(60)]
pub proof fn law_harmonic_scales_are_a_step_away()
    ensures
        differs_by_a_step(Scale::HarmonicMinor, Scale::NaturalMinor, 11, 10),
        scale::has_step(Scale::HarmonicMinor, 11) && !scale::has_step(Scale::HarmonicMinor, 10),
        differs_by_a_step(Scale::MelodicMinor, Scale::Major, 3, 4),
        scale::has_step(Scale::MelodicMinor, 3) && !scale::has_step(Scale::MelodicMinor, 4),
        differs_by_a_step(Scale::HarmonicMajor, Scale::Major, 8, 9),
        scale::has_step(Scale::HarmonicMajor, 8) && !scale::has_step(Scale::HarmonicMajor, 9),
        is_mode_of(Scale::LydianDominant, Scale::MelodicMinor, 5),
        is_mode_of(Scale::PhrygianDominant, Scale::HarmonicMinor, 7),
        is_mode_of(Scale::HungarianMinor, Scale::DoubleHarmonic, 5),
{
    lemma_member_seven(Scale::Major, 0, 2, 4, 5, 7, 9, 11);
    lemma_member_seven(Scale::NaturalMinor, 0, 2, 3, 5, 7, 8, 10);
    lemma_member_seven(Scale::HarmonicMinor, 0, 2, 3, 5, 7, 8, 11);
    lemma_member_seven(Scale::MelodicMinor, 0, 2, 3, 5, 7, 9, 11);
    lemma_member_seven(Scale::HarmonicMajor, 0, 2, 4, 5, 7, 8, 11);
    lemma_member_seven(Scale::LydianDominant, 0, 2, 4, 6, 7, 9, 10);
    lemma_member_seven(Scale::PhrygianDominant, 0, 1, 4, 5, 7, 8, 10);
    lemma_member_seven(Scale::HungarianMinor, 0, 2, 3, 6, 7, 8, 11);
    lemma_member_seven(Scale::DoubleHarmonic, 0, 1, 4, 5, 7, 8, 11);
}

proof fn lemma_member_five(scale: Scale, a: u8, b: u8, c: u8, d: u8, e: u8)
    requires
        !(scale is Custom),
        scale::steps_of(scale) == seq![a, b, c, d, e],
    ensures
        forall|x: u16| x < 12 ==> (#[trigger] scale::has_step(scale, x) <==> x == a || x == b || x == c || x == d || x == e),
{
    let s = seq![a, b, c, d, e];
    assert(s[0] == a && s[1] == b && s[2] == c && s[3] == d && s[4] == e);
    assert forall|x: u16| x < 12 implies (#[trigger] scale::has_step(scale, x) <==> x == a || x == b || x == c || x == d || x == e) by {
        let y = x as u8;
        if s.contains(y) {
            let i = choose|i: int| 0 <= i < s.len() && s[i] == y;
            assert(i == 0 || i == 1 || i == 2 || i == 3 || i == 4);
        }
        if y == a {
            assert(s.contains(s[0]));
        }
        if y == b {
            assert(s.contains(s[1]));
        }
        if y == c {
            assert(s.contains(s[2]));
        }
        if y == d {
            assert(s.contains(s[3]));
        }
        if y == e {
            assert(s.contains(s[4]));
        }
    }
}

proof fn lemma_member_six(scale: Scale, a: u8, b: u8, c: u8, d: u8, e: u8, f: u8)
    requires
        !(scale is Custom),
        scale::steps_of(scale) == seq![a, b, c, d, e, f],
    ensures
        forall|x: u16| x < 12 ==> (#[trigger] scale::has_step(scale, x) <==> x == a || x == b || x == c || x == d || x == e || x == f),
{
    let s = seq![a, b, c, d, e, f];
    assert(s[0] == a && s[1] == b && s[2] == c && s[3] == d && s[4] == e && s[5] == f);
    assert forall|x: u16| x < 12 implies (#[trigger] scale::has_step(scale, x) <==> x == a || x == b || x == c || x == d || x == e || x == f) by {
        let y = x as u8;
        if s.contains(y) {
            let i = choose|i: int| 0 <= i < s.len() && s[i] == y;
            assert(i == 0 || i == 1 || i == 2 || i == 3 || i == 4 || i == 5);
        }
        if y == a {
            assert(s.contains(s[0]));
        }
        if y == b {
            assert(s.contains(s[1]));
        }
        if y == c {
            assert(s.contains(s[2]));
        }
        if y == d {
            assert(s.contains(s[3]));
        }
        if y == e {
            assert(s.contains(s[4]));
        }
        if y == f {
            assert(s.contains(s[5]));
        }
    }
}

proof fn lemma_member_eight(scale: Scale, a: u8, b: u8, c: u8, d: u8, e: u8, f: u8, g: u8, h: u8)
    requires
        !(scale is Custom),
        scale::steps_of(scale) == seq![a, b, c, d, e, f, g, h],
    ensures
        forall|x: u16| x < 12 ==> (#[trigger] scale::has_step(scale, x) <==> x == a || x == b || x == c || x == d || x == e || x == f || x == g || x == h),
{
    let s = seq![a, b, c, d, e, f, g, h];
    assert(s[0] == a && s[1] == b && s[2] == c && s[3] == d && s[4] == e && s[5] == f && s[6] == g && s[7] == h);
    assert forall|x: u16| x < 12 implies (#[trigger] scale::has_step(scale, x) <==> x == a || x == b || x == c || x == d || x == e || x == f || x == g || x == h) by {
        let y = x as u8;
        if s.contains(y) {
            let i = choose|i: int| 0 <= i < s.len() && s[i] == y;
            assert(i == 0 || i == 1 || i == 2 || i == 3 || i == 4 || i == 5 || i == 6 || i == 7);
        }
        if y == a {
            assert(s.contains(s[0]));
        }
        if y == b {
            assert(s.contains(s[1]));
        }
        if y == c {
            assert(s.contains(s[2]));
        }
        if y == d {
            assert(s.contains(s[3]));
        }
        if y == e {
            assert(s.contains(s[4]));
        }
        if y == f {
            assert(s.contains(s[5]));
        }
        if y == g {
            assert(s.contains(s[6]));
        }
        if y == h {
            assert(s.contains(s[7]));
        }
    }
}

/// The pentatonic scales are modes of each other and of the major scale what is left of it
/// without two steps; the blues scale has one step more.
#[verifier::rlimit(60)]
pub proof fn law_pentatonic_scales_are_modes()
    ensures
        is_mode_of(Scale::MinorPentatonic, Scale::MajorPentatonic, 9),
        forall|d: int|
            0 <= d < 12 ==> (#[trigger] scale::has_step(Scale::MajorPentatonic, d as u16) <==> d != 5 && d != 11
                && scale::has_step(Scale::Major, d as u16)),
        forall|d: int|
            0 <= d < 12 ==> (#[trigger] scale::has_step(Scale::Blues, d as u16) <==> d == 6 || scale::has_step(
                Scale::MinorPentatonic,
                d as u16,
            )),
        forall|d: int|
            0 <= d < 12 ==> (#[trigger] scale::has_step(Scale::Japanese, d as u16) <==> d != 3 && d != 10
                && scale::has_step(Scale::Phrygian, d as u16)),
{
    lemma_member_seven(Scale::Major, 0, 2, 4, 5, 7, 9, 11);
    lemma_member_seven(Scale::Phrygian, 0, 1, 3, 5, 7, 8, 10);
    lemma_member_five(Scale::MajorPentatonic, 0, 2, 4, 7, 9);
    lemma_member_five(Scale::MinorPentatonic, 0, 3, 5, 7, 10);
    lemma_member_six(Scale::Blues, 0, 3, 5, 6, 7, 10);
    lemma_member_five(Scale::Japanese, 0, 1, 5, 7, 8);
}

/// The whole-tone scale is the same from each of its steps, and so is each of the two
/// diminished ones from every other; these are modes of each other.
#[verifier::rlimit(60)]
pub proof fn law_symmetric_scales_repeat()
    ensures
        is_mode_of(Scale::WholeTone, Scale::WholeTone, 2),
        scale::has_step(Scale::WholeTone, 0) && !scale::has_step(Scale::WholeTone, 1),
        is_mode_of(Scale::Diminished, Scale::Diminished, 3),
        is_mode_of(Scale::HalfWholeDim, Scale::Diminished, 2),
        scale::has_step(Scale::Diminished, 0) && !scale::has_step(Scale::Diminished, 1) && scale::has_step(
            Scale::Diminished,
            2,
        ),
{
    lemma_member_six(Scale::WholeTone, 0, 2, 4, 6, 8, 10);
    lemma_member_eight(Scale::Diminished, 0, 2, 3, 5, 6, 8, 9, 11);
    lemma_member_eight(Scale::HalfWholeDim, 0, 1, 3, 4, 6, 7, 9, 10);
}

/// A mode is spelled like the major scale that it is a mode of; major scales are spelled
/// with flats from F, B flat, E flat, A flat and D flat, and with sharps otherwise.
pub proof fn law_modes_are_spelled_like_their_scale(root: int)
    requires
        0 <= root < 12,
    ensures
        scale::spelled_flat(root, Scale::Dorian) == scale::spelled_flat((root + 12 - 2) % 12, Scale::Major),
        scale::spelled_flat(root, Scale::Phrygian) == scale::spelled_flat((root + 12 - 4) % 12, Scale::Major),
        scale::spelled_flat(root, Scale::Lydian) == scale::spelled_flat((root + 12 - 5) % 12, Scale::Major),
        scale::spelled_flat(root, Scale::Mixolydian) == scale::spelled_flat((root + 12 - 7) % 12, Scale::Major),
        scale::spelled_flat(root, Scale::NaturalMinor) == scale::spelled_flat((root + 12 - 9) % 12, Scale::Major),
        scale::spelled_flat(root, Scale::Locrian) == scale::spelled_flat((root + 12 - 11) % 12, Scale::Major),
        scale::spelled_flat(root, Scale::Major) <==> root == 5 || root == 10 || root == 3 || root == 8 || root == 1,
{
}

} // verus!
