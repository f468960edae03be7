use common::beat::Beat;
use common::scale::{pitch_class_name, pitch_class_name_in_key, prefers_flats, Scale, ScaleChange};

fn key(root: u8, scale: Scale) -> ScaleChange {
    ScaleChange { beat: Beat { bits: 0 }, root, scale }
}

#[test]
fn major_mask() {
    assert_eq!(Scale::Major.pitch_class_mask(), 0b1010_1011_0101);
}

#[test]
fn natural_minor_mask() {
    assert_eq!(Scale::NaturalMinor.pitch_class_mask(), 0b0101_1010_1101);
}

#[test]
fn pentatonic_has_five_notes() {
    assert_eq!(Scale::MajorPentatonic.pitch_class_mask().count_ones(), 5);
    assert_eq!(Scale::MinorPentatonic.pitch_class_mask().count_ones(), 5);
}

#[test]
fn chromatic_all_in() {
    assert_eq!(Scale::Chromatic.pitch_class_mask(), 0x0FFF);
    let c = key(0, Scale::Chromatic);
    for p in 0u8..=127 {
        assert!(c.contains(p));
    }
}

#[test]
fn custom_truncates_high_bits() {
    assert_eq!(Scale::Custom(0xFFFF).pitch_class_mask(), 0x0FFF);
}

#[test]
fn all_presets_have_root() {
    let presets = Scale::all_presets();
    assert_eq!(presets.len(), 22);
    for s in presets {
        assert!(s.pitch_class_mask() & 1 == 1, "{:?} missing root", s);
    }
}

#[test]
fn c_major_contains_d() {
    let c = key(0, Scale::Major);
    assert!(c.contains(62));
    assert!(c.contains(60));
    assert!(!c.contains(61));
    assert!(!c.contains(63));
    assert!(c.contains(64));
}

#[test]
fn snap_prefers_up_on_tie() {
    assert_eq!(key(0, Scale::Major).snap(61), 62);
}

#[test]
fn snap_idempotent_on_in_scale() {
    let c = key(0, Scale::Major);
    assert_eq!(c.snap(60), 60);
    assert_eq!(c.snap(62), 62);
    assert_eq!(c.snap(64), 64);
}

#[test]
fn snap_boundary_low() {
    let c = key(0, Scale::Major);
    assert_eq!(c.snap(0), 0);
    assert_eq!(c.snap(1), 2);
}

#[test]
fn snap_boundary_high() {
    let c = key(0, Scale::Major);
    assert_eq!(c.snap(127), 127);
    assert_eq!(c.snap(126), 127);
}

#[test]
fn snap_with_zero_mask_passthrough() {
    assert_eq!(key(0, Scale::Custom(0)).snap(60), 60);
}

#[test]
fn step_transpose_within_scale() {
    let c = key(0, Scale::Major);
    assert_eq!(c.step_transpose(60, 1), 62);
    assert_eq!(c.step_transpose(60, 2), 64);
    assert_eq!(c.step_transpose(60, 7), 72);
    assert_eq!(c.step_transpose(60, -1), 59);
}

#[test]
fn step_transpose_out_of_scale_unchanged() {
    assert_eq!(key(0, Scale::Major).step_transpose(61, 1), 61);
}

#[test]
fn step_transpose_zero_unchanged() {
    assert_eq!(key(0, Scale::Major).step_transpose(60, 0), 60);
}

#[test]
fn step_transpose_off_the_keyboard_unchanged() {
    let c = key(0, Scale::Major);
    assert_eq!(c.step_transpose(127, 1), 127);
    assert_eq!(c.step_transpose(0, -1), 0);
    assert_eq!(c.step_transpose(60, i32::MAX), 60);
}

#[test]
fn steps_back_undo_steps() {
    for scale in Scale::all_presets() {
        let c = key(3, scale);
        for p in 0u8..=127 {
            for steps in [-9, -1, 1, 5] {
                let q = c.step_transpose(p, steps);
                if q != p {
                    assert_eq!(c.step_transpose(q, -steps), p, "{scale:?} {p} {steps}");
                }
            }
        }
    }
}

#[test]
fn snap_lands_in_the_key() {
    let c = key(10, Scale::Japanese);
    for p in 0u8..=127 {
        assert!(c.contains(c.snap(p)));
    }
}

#[test]
fn pitch_class_name_basic() {
    assert_eq!(pitch_class_name(0), "C");
    assert_eq!(pitch_class_name(1), "C#");
    assert_eq!(pitch_class_name(11), "B");
    assert_eq!(pitch_class_name(12), "C");
}

#[test]
fn prefers_flats_follows_circle_of_fifths() {
    let cases = [
        (0, Scale::Major, false),
        (7, Scale::Major, false),
        (2, Scale::Major, false),
        (11, Scale::Major, false),
        (6, Scale::Major, false),
        (5, Scale::Major, true),
        (10, Scale::Major, true),
        (3, Scale::Major, true),
        (1, Scale::Major, true),
        (9, Scale::NaturalMinor, false),
        (4, Scale::NaturalMinor, false),
        (2, Scale::NaturalMinor, true),
        (7, Scale::NaturalMinor, true),
        (5, Scale::WholeTone, false),
        (10, Scale::Diminished, false),
        (1, Scale::Chromatic, false),
        (3, Scale::Custom(0xABC), false),
    ];
    for (root, scale, expected) in cases {
        assert_eq!(prefers_flats(root, scale), expected, "root={root} scale={scale:?}");
    }
}

#[test]
fn pitch_class_name_in_key_spells_flat_keys() {
    assert_eq!(pitch_class_name_in_key(10, 10, Scale::Major), "Bb");
    assert_eq!(pitch_class_name_in_key(3, 10, Scale::Major), "Eb");
    assert_eq!(pitch_class_name_in_key(10, 0, Scale::Major), "A#");
    assert_eq!(pitch_class_name_in_key(1, 0, Scale::Major), "C#");
    assert_eq!(pitch_class_name_in_key(10, 2, Scale::NaturalMinor), "Bb");
    assert_eq!(pitch_class_name_in_key(0, 10, Scale::Major), "C");
    assert_eq!(pitch_class_name_in_key(4, 10, Scale::Major), "E");
}

#[test]
fn scales_have_their_names() {
    assert_eq!(Scale::NaturalMinor.display_name(), "Minor");
    assert_eq!(Scale::HalfWholeDim.display_name(), "Half-Whole Diminished");
    assert_eq!(Scale::Custom(5).display_name(), "Custom");
}
