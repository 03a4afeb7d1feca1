use spectral_music::chord::{Chord, ChordQuality};
use spectral_music::pitch::Pitch;
use spectral_music::progression::{
    circle_of_fifths, one_four_five_one, one_six_two_five, random_progression, two_five_one,
    Progression,
};

#[test]
fn test_two_five_one_structure() {
    let prog = two_five_one();
    assert_eq!(prog.chords.len(), 3);
}

#[test]
fn test_laplacian() {
    let prog = two_five_one();
    let lap = prog.laplacian();
    assert_eq!(lap.len(), 3);
    // Laplacian rows should sum to ~0
    for i in 0..3 {
        let row_sum: i64 = lap[i].iter().sum();
        assert!((row_sum as f64).abs() < 0.01, "Row {} sum = {}", i, row_sum);
    }
}

#[test]
fn two_five_one_chain_weights() {
    let prog = two_five_one();
    // Dm7 [0,2,5,9] -> G7 [2,5,7,11]: 0->11, 2->2, 5->5, 9->7 = 1 + 0 + 0 + 2
    // G7 [2,5,7,11] -> Cmaj7 [0,4,7,11]: 2->0, 5->4, 7->7, 11->11 = 2 + 1 + 0 + 0
    assert_eq!(prog.weights, vec![vec![0, 3, 0], vec![3, 0, 3], vec![0, 3, 0]]);
    let lap = prog.laplacian();
    assert_eq!(lap, vec![vec![3, -3, 0], vec![-3, 6, -3], vec![0, -3, 3]]);
}

#[test]
fn complete_graph_weights_are_symmetric() {
    let chords = vec![
        Chord::from_name("C").unwrap(),
        Chord::from_name("F").unwrap(),
        Chord::from_name("G7").unwrap(),
    ];
    let prog = Progression::from_chords(chords);
    assert_eq!(prog.weights, vec![vec![0, 3, 4], vec![3, 0, 5], vec![4, 5, 0]]);
    let lap = prog.laplacian();
    for i in 0..3 {
        assert_eq!(lap[i].iter().sum::<i64>(), 0);
        for j in 0..3 {
            assert_eq!(lap[i][j], lap[j][i]);
        }
    }
}

#[test]
fn empty_and_single_progressions() {
    let empty = Progression::from_chord_sequence(vec![]);
    assert!(empty.weights.is_empty());
    assert!(empty.laplacian().is_empty());
    let one = Progression::from_chord_sequence(vec![Chord::new(Pitch { midi: 60 }, ChordQuality::Major)]);
    assert_eq!(one.weights, vec![vec![0]]);
    assert_eq!(one.laplacian(), vec![vec![0]]);
}

#[test]
fn standard_progressions() {
    let circle = circle_of_fifths();
    assert_eq!(circle.chords.len(), 12);
    let roots: Vec<u8> = circle.chords.iter().map(|c| c.root.midi).collect();
    assert_eq!(roots, vec![65, 60, 67, 62, 69, 64, 71, 66, 61, 68, 63, 70]);
    // F [0,5,9] -> C [0,4,7]: 0->0, 5->4, 9->7 = 0 + 1 + 2
    // C [0,4,7] -> G [2,7,11]: 0->11, 4->2, 7->7 = 1 + 2 + 0
    assert_eq!(circle.weights[0][1], 3);
    assert_eq!(circle.weights[1][2], 3);
    assert_eq!(circle.weights[2][1], 3);
    assert_eq!(circle.weights[0][2], 0);

    let turnaround = one_six_two_five();
    assert_eq!(turnaround.chords.len(), 4);
    assert_eq!(turnaround.chords[1].root.midi, 69);

    let cadence = one_four_five_one();
    assert_eq!(cadence.chords.len(), 4);
    assert_eq!(cadence.weights[3][2], cadence.weights[2][3]);

    let random = random_progression();
    assert_eq!(random.chords.len(), 6);
    assert_eq!(random.chords[2].quality, ChordQuality::Augmented);
    assert_eq!(random.chords[5].root.midi, 71);
}

#[test]
fn test_circle_of_fifths() {
    let prog = circle_of_fifths();
    assert_eq!(prog.chords.len(), 12);
    // every step of the chain moves, so the graph is connected
    for i in 0..11 {
        assert!(prog.weights[i][i + 1] > 0);
    }
}

#[test]
fn test_one_six_two_five() {
    let prog = one_six_two_five();
    assert_eq!(prog.chords.len(), 4);
    for i in 0..3 {
        assert!(prog.weights[i][i + 1] > 0);
    }
}
