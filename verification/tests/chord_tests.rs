use spectral_music::chord::{Chord, ChordQuality, NameError};
use spectral_music::pitch::Pitch;

#[test]
fn test_chord_from_name() {
    let dm7 = Chord::from_name("Dm7").unwrap();
    assert_eq!(dm7.root.midi, 62); // D4
    assert_eq!(dm7.quality, ChordQuality::Minor);

    let g7 = Chord::from_name("G7").unwrap();
    assert_eq!(g7.root.midi, 67); // G4
    assert_eq!(g7.quality, ChordQuality::Dominant);

    let cmaj7 = Chord::from_name("Cmaj7").unwrap();
    assert_eq!(cmaj7.root.midi, 60); // C4
    assert_eq!(cmaj7.quality, ChordQuality::Major);
}

#[test]
fn test_chord_pitches() {
    let c_maj = Chord::new(Pitch { midi: 60 }, ChordQuality::Major);
    let pitches = c_maj.pitches();
    assert_eq!(pitches.len(), 3); // C, E, G
    assert_eq!(pitches[0].midi, 60);
    assert_eq!(pitches[1].midi, 64);
    assert_eq!(pitches[2].midi, 67);
}

#[test]
fn test_voice_leading_cost() {
    // C to Cm: should be low (just E -> Eb = 1 semitone)
    let c_maj = Chord::from_name("C").unwrap();
    let c_min = Chord::from_name("Cm").unwrap();
    let cost = c_maj.voice_leading_cost(&c_min);
    assert!((cost as f64) < 2.0, "C -> Cm cost should be low, got {}", cost);
}

#[test]
fn test_dominant_pitches() {
    let g7 = Chord::from_name("G7").unwrap();
    let pitches = g7.pitches();
    assert_eq!(pitches.len(), 4); // G, B, D, F
}

#[test]
fn from_name_reads_every_quality() {
    let cases: [(&str, u8, ChordQuality, &[u8]); 16] = [
        ("C", 60, ChordQuality::Major, &[]),
        ("Cmaj", 60, ChordQuality::Major, &[]),
        ("Cmaj7", 60, ChordQuality::Major, &[7]),
        ("Cm", 60, ChordQuality::Minor, &[]),
        ("Cmin", 60, ChordQuality::Minor, &[]),
        ("Cm7", 60, ChordQuality::Minor, &[7]),
        ("Cmin7", 60, ChordQuality::Minor, &[7]),
        ("Bm7b5", 71, ChordQuality::HalfDiminished, &[7]),
        ("B\u{f8}7", 71, ChordQuality::HalfDiminished, &[7]),
        ("Cdim", 60, ChordQuality::Diminished, &[]),
        ("Cdim7", 60, ChordQuality::Diminished, &[7]),
        ("Caug", 60, ChordQuality::Augmented, &[]),
        ("Csus4", 60, ChordQuality::Suspended, &[]),
        ("C7", 60, ChordQuality::Dominant, &[7]),
        ("C9", 60, ChordQuality::Major, &[]),
        ("Cxyz", 60, ChordQuality::Major, &[]),
    ];
    for (name, root, quality, ext) in cases.iter() {
        let c = Chord::from_name(name).unwrap();
        assert_eq!(c.root.midi, *root, "{}", name);
        assert_eq!(c.quality, *quality, "{}", name);
        assert_eq!(c.extensions.as_slice(), *ext, "{}", name);
    }
}

#[test]
fn from_name_accidentals_and_case() {
    assert_eq!(Chord::from_name("F#m7b5").unwrap().root.midi, 66);
    assert_eq!(Chord::from_name("Db7").unwrap().root.midi, 61);
    assert_eq!(Chord::from_name("Cb").unwrap().root.midi, 71);
    assert_eq!(Chord::from_name("B#").unwrap().root.midi, 72);
    assert_eq!(Chord::from_name("dm7").unwrap().root.midi, 62);
    // "b" right after the letter is a flat, not part of the quality
    assert_eq!(Chord::from_name("Ebm").unwrap().quality, ChordQuality::Minor);
}

#[test]
fn from_name_trims_whitespace() {
    let c = Chord::from_name("  G7 \t").unwrap();
    assert_eq!(c.root.midi, 67);
    assert_eq!(c.quality, ChordQuality::Dominant);
}

#[test]
fn from_name_rejects_non_chords() {
    assert!(Chord::from_name("").is_none());
    assert!(Chord::from_name("   ").is_none());
    assert!(Chord::from_name("H7").is_none());
    assert!(Chord::from_name("7").is_none());
    assert!(Chord::from_name("\u{e9}").is_none());
}

#[test]
fn try_from_name_reads_unicode_accidentals() {
    assert_eq!(Chord::try_from_name("\u{FB00}"), Err(NameError::UnreadableRoot));
    assert_eq!(Chord::try_from_name("X\u{266F}"), Ok(None));
    let sharp = Chord::try_from_name("C\u{266F}").unwrap().unwrap();
    assert_eq!(sharp.root.midi, 61);
    assert_eq!(sharp.quality, ChordQuality::Major);
    let flat = Chord::from_name("E\u{266D}m7").unwrap();
    assert_eq!(flat.root.midi, 63);
    assert_eq!(flat.quality, ChordQuality::Minor);
    assert_eq!(flat.extensions, vec![7]);
    let ok = Chord::try_from_name("Am7").unwrap().unwrap();
    assert_eq!(ok.root.midi, 69);
}

#[test]
fn intervals_of_qualities() {
    assert_eq!(ChordQuality::Major.intervals(), &[4, 7]);
    assert_eq!(ChordQuality::Dominant.intervals(), &[4, 7, 10]);
    assert_eq!(ChordQuality::Diminished.intervals(), &[3, 6, 9]);
    assert_eq!(ChordQuality::HalfDiminished.intervals(), &[3, 6, 10]);
    assert_eq!(ChordQuality::Augmented.intervals(), &[4, 8]);
    assert_eq!(ChordQuality::Suspended.intervals(), &[5, 7]);
}

#[test]
fn pitch_classes_are_sorted_and_distinct() {
    let b7 = Chord::new(Pitch { midi: 71 }, ChordQuality::Dominant);
    // B D# F# A -> 11 3 6 9
    assert_eq!(b7.pitch_classes(), vec![3, 6, 9, 11]);
    let c = Chord::new(Pitch { midi: 60 }, ChordQuality::Major);
    assert_eq!(c.pitch_classes(), vec![0, 4, 7]);
}

#[test]
fn voice_leading_cost_values() {
    let c = Chord::from_name("C").unwrap();
    let f = Chord::from_name("F").unwrap();
    let g7 = Chord::from_name("G7").unwrap();
    let cmaj7 = Chord::from_name("Cmaj7").unwrap();
    assert_eq!(c.voice_leading_cost(&c), 0);
    // [0,4,7] vs [0,5,9]: 0->0, 4->5, 7->9 = 0 + 1 + 2
    assert_eq!(c.voice_leading_cost(&f), 3);
    assert_eq!(f.voice_leading_cost(&c), 3);
    // [0,0,4,7] vs [2,5,7,11]: 0->11, 0->2, 4->5, 7->7 = 1 + 2 + 1 + 0
    assert_eq!(c.voice_leading_cost(&g7), 4);
    assert_eq!(g7.voice_leading_cost(&c), 4);
    // [2,5,7,11] vs [0,4,7,11]: 2->0, 5->4, 7->7, 11->11 = 2 + 1 + 0 + 0
    assert_eq!(g7.voice_leading_cost(&cmaj7), 3);
    assert_eq!(cmaj7.voice_leading_cost(&g7), 3);
}

#[test]
fn voice_leading_to_pairs_pitches() {
    let c = Chord::from_name("C").unwrap();
    let g7 = Chord::from_name("G7").unwrap();
    let ivs = c.voice_leading_to(&g7);
    assert_eq!(ivs.len(), 3);
    // C4 -> G4, E4 -> B4, G4 -> D5: a fifth up is a fourth down
    assert_eq!(ivs[0].semitones, -5);
    assert_eq!(ivs[1].semitones, -5);
    assert_eq!(ivs[2].semitones, -5);
    let back = g7.voice_leading_to(&c);
    assert_eq!(back.len(), 3);
    assert_eq!(back[0].semitones, 5);
}

#[test]
fn chord_names() {
    assert_eq!(Chord::from_name("Dm7").unwrap().name(), "D4m7");
    assert_eq!(Chord::from_name("C").unwrap().name(), "C4");
    assert_eq!(Chord::from_name("Cmaj7").unwrap().name(), "C4maj7");
    assert_eq!(Chord::from_name("F#m7b5").unwrap().name(), "F#4m7b5");
    assert_eq!(Chord::from_name("Bdim7").unwrap().name(), "B4dim7");
    assert_eq!(Chord::from_name("Bdim").unwrap().name(), "B4dim");
    assert_eq!(Chord::from_name("Ebaug").unwrap().name(), "D#4aug");
    assert_eq!(Chord::from_name("Gsus").unwrap().name(), "G4sus");
    assert_eq!(Chord::from_name("Am").unwrap().name(), "A4m");
}

#[test]
fn pitches_include_extension_tones() {
    let cmaj7 = Chord::from_name("Cmaj7").unwrap();
    let midis: Vec<u8> = cmaj7.pitches().iter().map(|p| p.midi).collect();
    assert_eq!(midis, vec![60, 64, 67, 71]);
    let dm7 = Chord::from_name("Dm7").unwrap();
    let midis: Vec<u8> = dm7.pitches().iter().map(|p| p.midi).collect();
    assert_eq!(midis, vec![62, 65, 69, 72]);
    // the seventh of a dominant chord is already among its intervals
    let g7 = Chord::from_name("G7").unwrap();
    let midis: Vec<u8> = g7.pitches().iter().map(|p| p.midi).collect();
    assert_eq!(midis, vec![67, 71, 74, 77]);
    let cdim7 = Chord::from_name("Cdim7").unwrap();
    assert_eq!(cdim7.pitches().len(), 4);
    let mut c9 = Chord::new(Pitch { midi: 60 }, ChordQuality::Major);
    c9.extensions = vec![9, 5, 13];
    let midis: Vec<u8> = c9.pitches().iter().map(|p| p.midi).collect();
    assert_eq!(midis, vec![60, 64, 67, 74, 81]);
    assert_eq!(cmaj7.pitch_classes(), vec![0, 4, 7, 11]);
}

#[test]
fn voice_leading_to_takes_the_short_way() {
    let c = Chord::new(Pitch { midi: 60 }, ChordQuality::Major);
    let b = Chord::new(Pitch { midi: 71 }, ChordQuality::Major);
    let ivs: Vec<i8> = c.voice_leading_to(&b).iter().map(|i| i.semitones).collect();
    assert_eq!(ivs, vec![-1, -1, -1]);
    let up: Vec<i8> = b.voice_leading_to(&c).iter().map(|i| i.semitones).collect();
    assert_eq!(up, vec![1, 1, 1]);
    // a tritone is taken upwards
    let fs = Chord::new(Pitch { midi: 66 }, ChordQuality::Major);
    assert_eq!(c.voice_leading_to(&fs)[0].semitones, 6);
    // the shorter chord decides how many voices move
    let g7 = Chord::from_name("G7").unwrap();
    assert_eq!(g7.voice_leading_to(&b).len(), 3);
}

#[test]
fn voice_leading_cost_is_the_least_pairing() {
    let c = Chord::from_name("C").unwrap();
    let em = Chord::from_name("Em").unwrap();
    // [0,4,7] vs [4,7,11]: 0->11, 4->4, 7->7
    assert_eq!(c.voice_leading_cost(&em), 1);
    assert_eq!(em.voice_leading_cost(&c), 1);
    let b = Chord::from_name("B").unwrap();
    assert_eq!(c.voice_leading_cost(&b), 3);
    let fs = Chord::from_name("F#").unwrap();
    // [0,4,7] vs [1,6,10]: 0->1, 4->6, 7->10 or the like
    assert_eq!(c.voice_leading_cost(&fs), 6);
    assert_eq!(fs.voice_leading_cost(&c), 6);
}

#[test]
fn from_name_trims_unicode_whitespace() {
    let c = Chord::from_name("\u{3000}Dm7\u{a0}\n").unwrap();
    assert_eq!(c.root.midi, 62);
    assert_eq!(c.quality, ChordQuality::Minor);
    assert_eq!(c.extensions, vec![7]);
    let t = Chord::try_from_name(" Dm7").unwrap().unwrap();
    assert_eq!(t.root.midi, 62);
    assert_eq!(Chord::try_from_name("\u{2003}\t"), Ok(None));
}
