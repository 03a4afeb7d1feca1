use spectral_music::chord::ChordQuality;
use spectral_music::fibonacci_harmony::FibonacciHarmony;

#[test]
fn fibonacci_progression_roots() {
    let prog = FibonacciHarmony::fibonacci_progression(0, 6);
    // fib: 0 1 1 2 3 5 8 -> fifths: 0 7 7 2 9 11 8
    let pcs: Vec<u8> = prog.chords.iter().map(|c| c.root.midi - 60).collect();
    assert_eq!(pcs, vec![0, 7, 7, 2, 9, 11, 8]);
    assert!(prog.chords.len() >= 5);
    assert_eq!(prog.chords[5].quality, ChordQuality::Minor);
    assert_eq!(prog.chords[4].quality, ChordQuality::Major);
}

#[test]
fn fibonacci_progression_has_at_least_two_chords() {
    assert_eq!(FibonacciHarmony::fibonacci_progression(5, 0).chords.len(), 2);
    assert_eq!(FibonacciHarmony::fibonacci_progression(5, 1).chords.len(), 2);
    assert_eq!(FibonacciHarmony::fibonacci_progression(5, 2).chords.len(), 3);
    let p = FibonacciHarmony::fibonacci_progression(5, 0);
    assert_eq!(p.chords[0].root.midi, 65);
    assert_eq!(p.chords[1].root.midi, 60);
}

#[test]
fn fibonacci_progression_large_generation() {
    let p = FibonacciHarmony::fibonacci_progression(0, 40);
    assert_eq!(p.chords.len(), 41);
    // fib(40) = 102334155; 102334155 * 7 mod 12 = 9
    assert_eq!(p.chords[40].root.midi, 69);
}

#[test]
fn test_fibonacci_progression() {
    let prog = FibonacciHarmony::fibonacci_progression(0, 6);
    assert!(prog.chords.len() >= 5);
    // the chain moves somewhere, so its Laplacian is not zero
    let lap = prog.laplacian();
    assert!(lap.iter().enumerate().any(|(i, row)| row[i] > 0));
}

#[test]
fn jazz_progressions_table() {
    let table = FibonacciHarmony::jazz_progressions();
    let names: Vec<&str> = table.iter().map(|(n, _)| n.as_str()).collect();
    assert_eq!(
        names,
        vec![
            "ii-V-I",
            "I-vi-ii-V",
            "I-IV-V-I",
            "I-vi-IV-V",
            "ii-V-I-vi",
            "I-iii-vi-ii",
            "Circle of Fifths",
            "iii-VI-ii-V",
            "Tritone Sub",
            "Coltrane Changes",
        ]
    );
    let coltrane: Vec<u8> = table[9].1.iter().map(|c| c.root.midi).collect();
    assert_eq!(coltrane, vec![60, 63, 69, 61, 67]);
    assert_eq!(table[9].1[1].quality, ChordQuality::Dominant);
    assert_eq!(table[9].1[1].extensions, vec![7]);
    let circle: Vec<u8> = table[6].1.iter().map(|c| c.root.midi).collect();
    assert_eq!(circle, vec![65, 60, 67, 62, 69, 64]);
    assert!(table[6].1.iter().all(|c| c.extensions.is_empty()));
    assert_eq!(table[5].1[1].quality, ChordQuality::Minor);
}
