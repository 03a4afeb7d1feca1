use spectral_music::chord::Chord;
use spectral_music::pitch::Pitch;
use spectral_music::spline_voice_leading::SplineVoiceLeading;

#[test]
fn test_smoothest_voice_leading() {
    let chords = vec![
        Chord::from_name("C").unwrap(),
        Chord::from_name("F").unwrap(),
        Chord::from_name("G").unwrap(),
        Chord::from_name("C").unwrap(),
    ];
    let svl = SplineVoiceLeading::smoothest(chords, 3);
    assert_eq!(svl.paths.len(), 3);
    assert_eq!(svl.paths[0].len(), 4);
}

#[test]
fn test_to_events() {
    let chords = vec![
        Chord::from_name("C").unwrap(),
        Chord::from_name("G").unwrap(),
    ];
    let svl = SplineVoiceLeading::smoothest(chords, 3);
    let events = svl.to_events();
    assert_eq!(events.len(), 6); // 2 chords × 3 voices
}

#[test]
fn test_smooth_leading_minimal() {
    // ii-V-I should have very smooth voice leading
    let chords = vec![
        Chord::from_name("Dm7").unwrap(),
        Chord::from_name("G7").unwrap(),
        Chord::from_name("Cmaj7").unwrap(),
    ];
    let svl = SplineVoiceLeading::smoothest(chords, 4);
    let cost = svl.total_cost();
    // ii-V-I in close position: total should be quite low
    assert!((cost as f64) < 12.0, "ii-V-I total cost should be low, got {}", cost);
}

#[test]
fn test_minimal_assignment_brute_force_optimal() {
    // Hand-computable optimal assignment for the brute-force path (n <= 4).
    // Current: C4 E4 G4. Target: G major (G4 B4 D5).
    // Optimal permutation: C4 -> B4 (1), E4 -> D5 (2), G4 -> G4 (0), total 3.
    let current = vec![
        Pitch { midi: 60 }, // C4
        Pitch { midi: 64 }, // E4
        Pitch { midi: 67 }, // G4
    ];
    let target = Chord::from_name("G").unwrap();
    let assignment = SplineVoiceLeading::minimal_assignment(&current, &target, 3);
    assert_eq!(
        assignment,
        vec![
            Pitch { midi: 71 }, // B4
            Pitch { midi: 74 }, // D5
            Pitch { midi: 67 }, // G4
        ]
    );
}

#[test]
fn test_minimal_assignment_greedy_distinct_targets() {
    // Greedy path (n > 4) must not assign two voices to the same target pitch
    // while an unclaimed target pitch still exists.
    let current = vec![
        Pitch { midi: 60 }, // C4 -> C4
        Pitch { midi: 59 }, // B3 -> G4 (C4 is already claimed)
        Pitch { midi: 62 }, // D4 -> E4 (C4 is already claimed)
        Pitch { midi: 48 }, // C3 -> C4 once all pitches are claimed
        Pitch { midi: 52 }, // E3 -> E4 once all pitches are claimed
    ];
    let target = Chord::from_name("C").unwrap();
    let assignment = SplineVoiceLeading::minimal_assignment(&current, &target, 5);
    assert_eq!(assignment.len(), 5);

    // The first three voices should claim all three distinct target pitches.
    let first_three: std::collections::HashSet<_> =
        assignment[..3].iter().map(|p| p.midi).collect();
    assert_eq!(
        first_three.len(),
        3,
        "first three voices should each get a distinct target pitch"
    );

    // Voice 1 must not collide with voice 0 while G4 is still free.
    assert_ne!(
        assignment[1].midi, 60,
        "greedy should avoid reusing C4 while other targets are free"
    );
    // Voice 2 must not collide with voice 0 while E4 is still free.
    assert_ne!(
        assignment[2].midi, 60,
        "greedy should avoid reusing C4 while other targets are free"
    );
}

#[test]
fn greedy_assignment_exact_choices() {
    let current = vec![
        Pitch { midi: 60 },
        Pitch { midi: 59 },
        Pitch { midi: 62 },
        Pitch { midi: 48 },
        Pitch { midi: 52 },
    ];
    let target = Chord::from_name("C").unwrap();
    let assignment = SplineVoiceLeading::minimal_assignment(&current, &target, 5);
    let midis: Vec<u8> = assignment.iter().map(|p| p.midi).collect();
    assert_eq!(midis, vec![60, 67, 64, 60, 64]);
}

#[test]
fn exhaustive_assignment_prefers_first_of_equal_cost() {
    // From two C4 voices to a C major triad every voice wants C4; the
    // lexicographically first assignment of cost 0 sends both there.
    let current = vec![Pitch { midi: 60 }, Pitch { midi: 60 }];
    let target = Chord::from_name("C").unwrap();
    let assignment = SplineVoiceLeading::minimal_assignment(&current, &target, 2);
    assert_eq!(assignment, vec![Pitch { midi: 60 }, Pitch { midi: 60 }]);
}

#[test]
fn repeated_chord_keeps_voices_still() {
    for voices in 1..7 {
        let chords = vec![
            Chord::from_name("C").unwrap(),
            Chord::from_name("C").unwrap(),
            Chord::from_name("C").unwrap(),
        ];
        let svl = SplineVoiceLeading::smoothest(chords, voices);
        assert_eq!(svl.total_cost(), 0);
        for path in &svl.paths {
            assert!(path.iter().all(|p| *p == path[0]));
        }
    }
}

#[test]
fn voices_stay_on_chord_tones() {
    let chords = vec![
        Chord::from_name("Dm7").unwrap(),
        Chord::from_name("G7").unwrap(),
        Chord::from_name("Cmaj7").unwrap(),
        Chord::from_name("Am7").unwrap(),
    ];
    let svl = SplineVoiceLeading::smoothest(chords.clone(), 6);
    for (i, chord) in chords.iter().enumerate() {
        let ps = chord.pitches();
        for path in &svl.paths {
            assert!(ps.contains(&path[i]));
        }
    }
    assert_eq!(svl.paths[0][0].midi, 62);
}

#[test]
fn first_voicing_doubles_the_root() {
    let chords = vec![Chord::from_name("C").unwrap()];
    let svl = SplineVoiceLeading::smoothest(chords, 5);
    let first: Vec<u8> = svl.paths.iter().map(|p| p[0].midi).collect();
    assert_eq!(first, vec![60, 64, 67, 60, 60]);
    let sevenths = vec![Chord::from_name("Cmaj7").unwrap()];
    let svl = SplineVoiceLeading::smoothest(sevenths, 6);
    let first: Vec<u8> = svl.paths.iter().map(|p| p[0].midi).collect();
    assert_eq!(first, vec![60, 64, 67, 71, 60, 60]);
}

#[test]
fn empty_progression_has_empty_paths() {
    let svl = SplineVoiceLeading::smoothest(vec![], 3);
    assert_eq!(svl.paths, vec![Vec::<Pitch>::new(); 3]);
    assert!(svl.to_events().is_empty());
    assert_eq!(svl.total_cost(), 0);
}

#[test]
fn events_in_chord_then_voice_order() {
    let chords = vec![
        Chord::from_name("C").unwrap(),
        Chord::from_name("G").unwrap(),
    ];
    let svl = SplineVoiceLeading::smoothest(chords, 3);
    let events = svl.to_events();
    let order: Vec<(usize, usize)> = events.iter().map(|e| (e.time, e.voice)).collect();
    assert_eq!(order, vec![(0, 0), (0, 1), (0, 2), (1, 0), (1, 1), (1, 2)]);
    assert!(events.iter().all(|e| e.duration == 1));
    assert_eq!(events[3].pitch, svl.paths[0][1]);
}

#[test]
fn total_cost_of_a_known_path() {
    let svl = SplineVoiceLeading {
        voices: 1,
        chords: vec![],
        paths: vec![vec![Pitch { midi: 60 }, Pitch { midi: 67 }, Pitch { midi: 69 }]],
    };
    // 60 -> 67 is 5 the short way round, 67 -> 69 is 2
    assert_eq!(svl.total_cost(), 7);
}

#[test]
fn two_five_one_paths_with_sevenths() {
    let chords = vec![
        Chord::from_name("Dm7").unwrap(),
        Chord::from_name("G7").unwrap(),
        Chord::from_name("Cmaj7").unwrap(),
    ];
    let svl = SplineVoiceLeading::smoothest(chords, 4);
    let paths: Vec<Vec<u8>> = svl.paths.iter().map(|p| p.iter().map(|q| q.midi).collect()).collect();
    assert_eq!(
        paths,
        vec![vec![62, 74, 60], vec![65, 77, 64], vec![69, 67, 67], vec![72, 71, 71]]
    );
    assert_eq!(svl.total_cost(), 6);
}

#[test]
fn curvature_totals_of_known_paths() {
    let svl = SplineVoiceLeading {
        voices: 2,
        chords: vec![],
        paths: vec![
            vec![Pitch { midi: 60 }, Pitch { midi: 67 }, Pitch { midi: 69 }, Pitch { midi: 60 }],
            vec![Pitch { midi: 60 }, Pitch { midi: 62 }],
        ],
    };
    // |69 - 134 + 60| + |60 - 138 + 67| = 5 + 11; a two-point path has none
    assert_eq!(svl.curvature_totals(), vec![16, 0]);
}

#[test]
fn repeated_chord_with_a_doubled_class_moves_without_cost() {
    // Csus with an eleventh holds F4 and F5: the voice on F5 may take F4 at
    // no cost, and the first cheapest assignment does so.
    let mut c = Chord::from_name("Csus").unwrap();
    c.extensions = vec![11];
    let svl = SplineVoiceLeading::smoothest(vec![c.clone(), c], 4);
    let last: Vec<u8> = svl.paths.iter().map(|p| p[1].midi).collect();
    assert_eq!(last, vec![60, 65, 67, 65]);
    assert_eq!(svl.total_cost(), 0);
}

#[test]
fn repeated_chord_never_costs_anything() {
    let mut c = Chord::from_name("Csus").unwrap();
    c.extensions = vec![11];
    for voices in 1..8 {
        let svl = SplineVoiceLeading::smoothest(vec![c.clone(), c.clone(), c.clone()], voices);
        assert_eq!(svl.total_cost(), 0);
        if voices > 4 {
            for path in &svl.paths {
                assert!(path.iter().all(|p| *p == path[0]));
            }
        }
    }
}
