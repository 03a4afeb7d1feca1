use spectral_music::pitch::{Interval, Pitch};

#[test]
fn test_pitch_from_note() {
    assert_eq!(Pitch::from_note('C', 4, false).midi, 60);
    assert_eq!(Pitch::from_note('C', 4, true).midi, 61);
    assert_eq!(Pitch::from_note('A', 4, false).midi, 69);
    assert_eq!(Pitch::from_note('G', 4, true).midi, 68);
}

#[test]
fn test_interval_voice_leading() {
    let i = Interval { semitones: 3 };
    assert_eq!(i.voice_leading_distance(), 3);
}

#[test]
fn test_pitch_transpose() {
    let c4 = Pitch::from_note('C', 4, false);
    let p5 = Interval { semitones: 7 };
    let g4 = c4.transpose(p5);
    assert_eq!(g4.midi, 67);
}

#[test]
fn test_pitch_class() {
    assert_eq!(Pitch { midi: 60 }.pitch_class(), 0); // C
    assert_eq!(Pitch { midi: 69 }.pitch_class(), 9); // A
}

#[test]
fn test_pitch_name() {
    // Scientific pitch notation: C4 = MIDI 60, A4 = MIDI 69
    assert_eq!(Pitch { midi: 60 }.name(), "C4");
    assert_eq!(Pitch { midi: 69 }.name(), "A4");
    assert_eq!(Pitch { midi: 12 }.name(), "C0");
    assert_eq!(Pitch { midi: 0 }.name(), "C-1");
    // Sharps
    assert_eq!(Pitch { midi: 61 }.name(), "C#4");
    assert_eq!(Pitch { midi: 66 }.name(), "F#4");
}

#[test]
fn test_from_note_name_roundtrip() {
    // from_note and name() must use the same octave convention
    let a4 = Pitch::from_note('A', 4, false);
    assert_eq!(a4.name(), "A4");
    let c4 = Pitch::from_note('C', 4, false);
    assert_eq!(c4.name(), "C4");
    let g_sharp = Pitch::from_note('G', 4, true);
    assert_eq!(g_sharp.name(), "G#4");
}

#[test]
fn from_note_lowercase_letter_is_uppercased() {
    assert_eq!(Pitch::from_note('a', 4, false).midi, 69);
    assert_eq!(Pitch::from_note('g', 4, true).midi, 68);
}

#[test]
fn from_note_unknown_letter_counts_as_c() {
    assert_eq!(Pitch::from_note('x', 4, false).midi, 60);
    assert_eq!(Pitch::from_note('H', 2, true).midi, 37);
}

#[test]
fn from_note_clamps_to_midi_range() {
    assert_eq!(Pitch::from_note('G', 9, false).midi, 127);
    assert_eq!(Pitch::from_note('B', 200, true).midi, 127);
    assert_eq!(Pitch::from_note('C', 0, false).midi, 12);
}

#[test]
fn name_of_high_octaves() {
    assert_eq!(Pitch { midi: 127 }.name(), "G9");
    assert_eq!(Pitch { midi: 132 }.name(), "C10");
    assert_eq!(Pitch { midi: 255 }.name(), "D#20");
    assert_eq!(Pitch { midi: 11 }.name(), "B-1");
}

#[test]
fn interval_to_and_transpose_read_back() {
    let c4 = Pitch { midi: 60 };
    let e3 = Pitch { midi: 52 };
    let down = c4.interval_to(&e3);
    assert_eq!(down.semitones, -8);
    assert_eq!(c4.transpose(down), e3);
    assert_eq!(e3.interval_to(&c4).semitones, 8);
}

#[test]
fn transpose_clamps() {
    assert_eq!(Pitch { midi: 3 }.transpose(Interval { semitones: -10 }).midi, 0);
    assert_eq!(Pitch { midi: 120 }.transpose(Interval { semitones: 7 }).midi, 127);
}

#[test]
fn minimal_distance_wraps_the_octave() {
    assert_eq!(Interval { semitones: 7 }.minimal_distance(), 5);
    assert_eq!(Interval { semitones: -7 }.minimal_distance(), 5);
    assert_eq!(Interval { semitones: 6 }.minimal_distance(), 6);
    assert_eq!(Interval { semitones: 13 }.minimal_distance(), 1);
    assert_eq!(Interval { semitones: -128 }.minimal_distance(), 4);
    assert_eq!(Interval { semitones: -128 }.voice_leading_distance(), 128);
}

#[test]
fn perfect_consonances() {
    assert!(Interval { semitones: 0 }.is_perfect_consonance());
    assert!(Interval { semitones: 5 }.is_perfect_consonance());
    assert!(Interval { semitones: -7 }.is_perfect_consonance());
    assert!(Interval { semitones: 19 }.is_perfect_consonance());
    assert!(!Interval { semitones: 4 }.is_perfect_consonance());
    assert!(!Interval { semitones: 6 }.is_perfect_consonance());
}

#[test]
fn interval_names() {
    assert_eq!(Interval { semitones: 0 }.name(), "P1");
    assert_eq!(Interval { semitones: 6 }.name(), "TT");
    assert_eq!(Interval { semitones: -7 }.name(), "P5");
    assert_eq!(Interval { semitones: 11 }.name(), "M7");
    assert_eq!(Interval { semitones: 15 }.name(), "m3");
}
