//! Progressions: the graph. Chords are nodes, voice-leading costs are edge
//! weights, and the graph Laplacian L = D - W collects them.

use vstd::prelude::*;

use crate::chord::{
    Chord, ChordQuality, lemma_starts_with_first, lemma_trimmed_unchanged,
    lemma_voice_leading_cost_symmetric,
};
use crate::pitch::Pitch;

verus! {

/// A chord progression as a weighted graph.
#[derive(Debug, Clone)]
pub struct Progression {
    pub chords: Vec<Chord>,
    /// Adjacency matrix: `weights[i][j]` = voice-leading cost from chord i to j.
    pub weights: Vec<Vec<u32>>,
}

// ---------------------------------------------------------------------------
// Specification
// ---------------------------------------------------------------------------

/// Every chord's pitches stay within a MIDI byte.
pub open spec fn all_fit(chords: Seq<Chord>) -> bool {
    forall|i: int| 0 <= i < chords.len() ==> (#[trigger] chords[i]).fits()
}

/// Weight between chords `i` and `j` in the complete graph: their
/// voice-leading cost, and 0 on the diagonal.
pub open spec fn complete_weight(chords: Seq<Chord>, i: int, j: int) -> int {
    if i == j {
        0
    } else {
        chords[i].spec_voice_leading_cost(chords[j])
    }
}

/// Weight between chords `i` and `j` in the chain graph: the cost from each
/// chord to the next, in both directions, and 0 between chords that are not
/// neighbours.
pub open spec fn chain_weight(chords: Seq<Chord>, i: int, j: int) -> int {
    if j == i + 1 {
        chords[i].spec_voice_leading_cost(chords[j])
    } else if i == j + 1 {
        chords[j].spec_voice_leading_cost(chords[i])
    } else {
        0
    }
}

/// `w` is an `n` by `n` matrix.
pub open spec fn is_square(w: Seq<Vec<u32>>, n: int) -> bool {
    w.len() == n && forall|i: int| 0 <= i < n ==> (#[trigger] w[i])@.len() == n
}

/// `w` has at least `n` rows, each with at least `n` entries.
pub open spec fn covers(w: Seq<Vec<u32>>, n: int) -> bool {
    w.len() >= n && forall|i: int| 0 <= i < n ==> (#[trigger] w[i])@.len() >= n
}

/// Sum of `row[j]` over `j < k`, leaving out `j == i`.
pub open spec fn degree(row: Seq<u32>, i: int, k: int) -> int
    decreases k,
{
    if k <= 0 {
        0
    } else {
        degree(row, i, k - 1) + if k - 1 == i {
            0
        } else {
            row[k - 1] as int
        }
    }
}

/// Entry (i, j) of the Laplacian of the `n` by `n` weight matrix `w`: the
/// degree of node i on the diagonal, minus the weight elsewhere.
pub open spec fn laplacian_entry(w: Seq<Vec<u32>>, n: int, i: int, j: int) -> int {
    if i == j {
        degree(w[i]@, i, n)
    } else {
        -(w[i]@[j] as int)
    }
}

/// Sum of the Laplacian entries (i, j) over `j < k`.
pub open spec fn laplacian_row_sum(w: Seq<Vec<u32>>, n: int, i: int, k: int) -> int
    decreases k,
{
    if k <= 0 {
        0
    } else {
        laplacian_row_sum(w, n, i, k - 1) + laplacian_entry(w, n, i, k - 1)
    }
}

/// The `n` by `n` matrix `w` is symmetric.
pub open spec fn is_symmetric(w: Seq<Vec<u32>>, n: int) -> bool {
    forall|i: int, j: int| 0 <= i < n && 0 <= j < n ==> #[trigger] w[i]@[j] == #[trigger] w[j]@[i]
}

/// The chord has root `midi`, quality `q` and extensions `e`.
pub open spec fn chord_is(c: Chord, midi: u8, q: ChordQuality, e: Seq<u8>) -> bool {
    c.root.midi == midi && c.quality == q && c.extensions@ == e
}

impl Progression {
    /// The progression's weights form a square matrix, one row per chord.
    pub open spec fn well_formed(self) -> bool {
        is_square(self.weights@, self.chords@.len() as int)
    }
}

// ---------------------------------------------------------------------------
// Lemmas
// ---------------------------------------------------------------------------

/// The chain graph joins each chord only to the next one: two chords that
/// are not neighbours in the sequence have weight zero, whatever the length
/// of the sequence, and neighbours are joined both ways by the voice-leading
/// cost from the earlier chord to the later.
pub proof fn lemma_chain_joins_only_neighbours(chords: Seq<Chord>, i: int, j: int)
    requires
        0 <= i < chords.len(),
        0 <= j < chords.len(),
    ensures
        i - j != 1 && j - i != 1 ==> chain_weight(chords, i, j) == 0,
        j == i + 1 ==> chain_weight(chords, i, j) == chords[i].spec_voice_leading_cost(chords[j])
            && chain_weight(chords, j, i) == chords[i].spec_voice_leading_cost(chords[j]),
{
}

/// The degree grows by at most `u32::MAX` per entry.
pub proof fn lemma_degree_bound(row: Seq<u32>, i: int, k: int)
    requires
        k >= 0,
    ensures
        0 <= degree(row, i, k) <= k * 0xffff_ffff,
    decreases k,
{
    if k > 0 {
        lemma_degree_bound(row, i, k - 1);
    }
}

/// Partial row sums of the Laplacian: the diagonal entry, once reached,
/// cancels against the off-diagonal entries seen so far.
pub proof fn lemma_laplacian_row_sum(w: Seq<Vec<u32>>, n: int, i: int, k: int)
    requires
        0 <= i < n,
        0 <= k <= n,
    ensures
        laplacian_row_sum(w, n, i, k) == (if i < k {
            degree(w[i]@, i, n)
        } else {
            0
        }) - degree(w[i]@, i, k),
    decreases k,
{
    if k > 0 {
        lemma_laplacian_row_sum(w, n, i, k - 1);
    }
}

/// Every row of a graph Laplacian sums to zero.
pub proof fn lemma_laplacian_rows_sum_to_zero(w: Seq<Vec<u32>>, n: int, i: int)
    requires
        0 <= i < n,
    ensures
        laplacian_row_sum(w, n, i, n) == 0,
{
    lemma_laplacian_row_sum(w, n, i, n);
}

/// The Laplacian of a symmetric weight matrix is symmetric.
pub proof fn lemma_laplacian_symmetric(w: Seq<Vec<u32>>, n: int, i: int, j: int)
    requires
        is_symmetric(w, n),
        0 <= i < n,
        0 <= j < n,
    ensures
        laplacian_entry(w, n, i, j) == laplacian_entry(w, n, j, i),
{
    if i != j {
        assert(w[i]@[j] == w[j]@[i]);
    }
}

/// The Laplacian has a non-negative diagonal and non-positive entries elsewhere.
pub proof fn lemma_laplacian_signs(w: Seq<Vec<u32>>, n: int, i: int, j: int)
    requires
        0 <= i < n,
        0 <= j < n,
    ensures
        i == j ==> laplacian_entry(w, n, i, j) >= 0,
        i != j ==> laplacian_entry(w, n, i, j) <= 0,
{
    lemma_degree_bound(w[i]@, i, n);
}

// ---------------------------------------------------------------------------
// Building progressions
// ---------------------------------------------------------------------------

impl Progression {
    /// Build a progression from chords, weighting every pair of distinct
    /// chords by their voice-leading cost (the complete graph).
    pub fn from_chords(chords: Vec<Chord>) -> (p: Progression)
        requires
            chords@.len() <= 1 || all_fit(chords@),
        ensures
            p.chords == chords,
            p.well_formed(),
            forall|i: int, j: int|
                0 <= i < chords@.len() && 0 <= j < chords@.len() ==> #[trigger] p.weights@[i]@[j]
                    == complete_weight(chords@, i, j),
            is_symmetric(p.weights@, chords@.len() as int),
    {
        let n = chords.len();
        let mut weights: Vec<Vec<u32>> = Vec::new();
        let mut i: usize = 0;
        while i < n
            invariant
                n == chords@.len(),
                n <= 1 || all_fit(chords@),
                i <= n,
                weights@.len() == i,
                forall|r: int| 0 <= r < i ==> (#[trigger] weights@[r])@.len() == n,
                forall|r: int, c: int|
                    0 <= r < i && 0 <= c < n ==> #[trigger] weights@[r]@[c] == complete_weight(
                        chords@,
                        r,
                        c,
                    ),
            decreases n - i,
        {
            let mut row: Vec<u32> = Vec::new();
            let mut j: usize = 0;
            while j < n
                invariant
                    n == chords@.len(),
                    n <= 1 || all_fit(chords@),
                    i < n,
                    j <= n,
                    row@.len() == j,
                    forall|c: int| 0 <= c < j ==> #[trigger] row@[c] == complete_weight(chords@, i as int, c),
                decreases n - j,
            {
                if i != j {
                    proof {
                        assert(chords@[i as int].fits());
                        assert(chords@[j as int].fits());
                    }
                    row.push(chords[i].voice_leading_cost(&chords[j]));
                } else {
                    row.push(0);
                }
                j = j + 1;
            }
            weights.push(row);
            i = i + 1;
        }
        proof {
            assert forall|r: int, c: int|
                0 <= r < n && 0 <= c < n implies #[trigger] weights@[r]@[c] == #[trigger] weights@[c]@[r] by {
                lemma_voice_leading_cost_symmetric(chords@[r], chords@[c]);
            }
        }
        Progression { chords, weights }
    }

    /// Build from sequential chord pairs only (the chain graph).
    pub fn from_chord_sequence(chords: Vec<Chord>) -> (p: Progression)
        requires
            chords@.len() <= 1 || all_fit(chords@),
        ensures
            p.chords == chords,
            p.well_formed(),
            forall|i: int, j: int|
                0 <= i < chords@.len() && 0 <= j < chords@.len() ==> #[trigger] p.weights@[i]@[j]
                    == chain_weight(chords@, i, j),
            is_symmetric(p.weights@, chords@.len() as int),
            forall|i: int, j: int|
                0 <= i < chords@.len() && 0 <= j < chords@.len() && i - j != 1 && j - i != 1
                    ==> #[trigger] p.weights@[i]@[j] == 0,
            forall|i: int|
                0 <= i < chords@.len() - 1 ==> #[trigger] p.weights@[i]@[i + 1] == p.weights@[i
                    + 1]@[i] && p.weights@[i]@[i + 1] == chords@[i].spec_voice_leading_cost(
                    chords@[i + 1],
                ),
    {
        let n = chords.len();
        let mut costs: Vec<u32> = Vec::new();
        let edges: usize = if n > 0 {
            n - 1
        } else {
            0
        };
        let mut k: usize = 0;
        while k < edges
            invariant
                n == chords@.len(),
                n <= 1 || all_fit(chords@),
                edges == if n > 0 {
                    n - 1
                } else {
                    0
                },
                k <= edges,
                costs@.len() == k,
                forall|c: int| 0 <= c < k ==> #[trigger] costs@[c] == chords@[c].spec_voice_leading_cost(
                    chords@[c + 1],
                ),
            decreases n - k,
        {
            proof {
                assert(chords@[k as int].fits());
                assert(chords@[k + 1].fits());
            }
            costs.push(chords[k].voice_leading_cost(&chords[k + 1]));
            k = k + 1;
        }
        let mut weights: Vec<Vec<u32>> = Vec::new();
        let mut i: usize = 0;
        while i < n
            invariant
                n == chords@.len(),
                i <= n,
                forall|c: int| 0 <= c < costs@.len() ==> #[trigger] costs@[c] == chords@[c].spec_voice_leading_cost(
                    chords@[c + 1],
                ),
                costs@.len() + 1 >= n,
                weights@.len() == i,
                forall|r: int| 0 <= r < i ==> (#[trigger] weights@[r])@.len() == n,
                forall|r: int, c: int|
                    0 <= r < i && 0 <= c < n ==> #[trigger] weights@[r]@[c] == chain_weight(
                        chords@,
                        r,
                        c,
                    ),
            decreases n - i,
        {
            let mut row: Vec<u32> = Vec::new();
            let mut j: usize = 0;
            while j < n
                invariant
                    n == chords@.len(),
                    i < n,
                    j <= n,
                    forall|c: int| 0 <= c < costs@.len() ==> #[trigger] costs@[c] == chords@[c].spec_voice_leading_cost(
                        chords@[c + 1],
                    ),
                    costs@.len() + 1 >= n,
                    row@.len() == j,
                    forall|c: int| 0 <= c < j ==> #[trigger] row@[c] == chain_weight(chords@, i as int, c),
                decreases n - j,
            {
                if j == i + 1 {
                    row.push(costs[i]);
                } else if i == j + 1 {
                    row.push(costs[j]);
                } else {
                    row.push(0);
                }
                j = j + 1;
            }
            weights.push(row);
            i = i + 1;
        }
        proof {
            assert forall|i: int, j: int|
                0 <= i < n && 0 <= j < n && i - j != 1 && j - i != 1 implies #[trigger] weights@[i]@[j]
                == 0 by {
                lemma_chain_joins_only_neighbours(chords@, i, j);
            }
            assert forall|i: int| 0 <= i < n - 1 implies #[trigger] weights@[i]@[i + 1] == weights@[i
                + 1]@[i] && weights@[i]@[i + 1] == chords@[i].spec_voice_leading_cost(chords@[i + 1]) by {
                lemma_chain_joins_only_neighbours(chords@, i, i + 1);
                assert(weights@[i]@[i + 1] == chain_weight(chords@, i, i + 1));
                assert(weights@[i + 1]@[i] == chain_weight(chords@, i + 1, i));
            }
        }
        Progression { chords, weights }
    }

    /// Graph Laplacian L = D - W, where D is the diagonal matrix of node
    /// degrees (row sums of W off the diagonal) and W the weight matrix.
    pub fn laplacian(&self) -> (lap: Vec<Vec<i64>>)
        requires
            covers(self.weights@, self.chords@.len() as int),
            self.chords@.len() <= 0x8000_0000,
        ensures
            lap@.len() == self.chords@.len(),
            forall|i: int| 0 <= i < lap@.len() ==> (#[trigger] lap@[i])@.len() == self.chords@.len(),
            forall|i: int, j: int|
                0 <= i < lap@.len() && 0 <= j < lap@.len() ==> #[trigger] lap@[i]@[j]
                    == laplacian_entry(self.weights@, self.chords@.len() as int, i, j),
    {
        let n = self.chords.len();
        let mut lap: Vec<Vec<i64>> = Vec::new();
        let mut i: usize = 0;
        while i < n
            invariant
                n == self.chords@.len(),
                n <= 0x8000_0000,
                covers(self.weights@, n as int),
                i <= n,
                lap@.len() == i,
                forall|r: int| 0 <= r < i ==> (#[trigger] lap@[r])@.len() == n,
                forall|r: int, c: int|
                    0 <= r < i && 0 <= c < n ==> #[trigger] lap@[r]@[c] == laplacian_entry(
                        self.weights@,
                        n as int,
                        r,
                        c,
                    ),
            decreases n - i,
        {
            let row = &self.weights[i];
            let mut degree_sum: i64 = 0;
            let mut j: usize = 0;
            while j < n
                invariant
                    n == self.chords@.len(),
                    n <= 0x8000_0000,
                    covers(self.weights@, n as int),
                    i < n,
                    row@ == self.weights@[i as int]@,
                    j <= n,
                    degree_sum == degree(row@, i as int, j as int),
                decreases n - j,
            {
                proof {
                    lemma_degree_bound(row@, i as int, j as int);
                    assert(j * 0xffff_ffff <= 0x7fff_ffff * 0xffff_ffff) by (nonlinear_arith)
                        requires
                            j < 0x8000_0000,
                    ;
                }
                if i != j {
                    degree_sum = degree_sum + row[j] as i64;
                }
                j = j + 1;
            }
            let mut lap_row: Vec<i64> = Vec::new();
            let mut j: usize = 0;
            while j < n
                invariant
                    n == self.chords@.len(),
                    covers(self.weights@, n as int),
                    i < n,
                    row@ == self.weights@[i as int]@,
                    degree_sum == degree(row@, i as int, n as int),
                    j <= n,
                    lap_row@.len() == j,
                    forall|c: int| 0 <= c < j ==> #[trigger] lap_row@[c] == laplacian_entry(
                        self.weights@,
                        n as int,
                        i as int,
                        c,
                    ),
                decreases n - j,
            {
                if i == j {
                    lap_row.push(degree_sum);
                } else {
                    lap_row.push(-(row[j] as i64));
                }
                j = j + 1;
            }
            lap.push(lap_row);
            i = i + 1;
        }
        lap
    }
}

// ---------------------------------------------------------------------------
// Standard progressions
// ---------------------------------------------------------------------------

/// A chord rooted in octave 4 or below C5 has its pitches within a MIDI byte.
proof fn lemma_literal_fits(c: Chord)
    requires
        c.root.midi <= 72,
    ensures
        c.fits(),
{
    crate::chord::lemma_chord_intervals(c.quality, c.extensions@);
}

/// The ii-V-I in C major: Dm7, G7, Cmaj7, as a chain.
pub fn two_five_one() -> (p: Progression)
    ensures
        p.chords@.len() == 3,
        chord_is(p.chords@[0], 62, ChordQuality::Minor, seq![7u8]),
        chord_is(p.chords@[1], 67, ChordQuality::Dominant, seq![7u8]),
        chord_is(p.chords@[2], 60, ChordQuality::Major, seq![7u8]),
        p.well_formed(),
        forall|i: int, j: int|
            0 <= i < 3 && 0 <= j < 3 ==> #[trigger] p.weights@[i]@[j] == chain_weight(p.chords@, i, j),
{
    proof {
        reveal_strlit("Dm7");
        reveal_strlit("G7");
        reveal_strlit("Cmaj7");
        lemma_trimmed_unchanged("Dm7"@);
        lemma_trimmed_unchanged("G7"@);
        lemma_trimmed_unchanged("Cmaj7"@);
    }
    proof {
        lemma_starts_with_first("Dm7"@.subrange(1, 3), seq!['\u{f8}', '7']);
        lemma_starts_with_first("G7"@.subrange(1, 2), seq!['m']);
    }
    let dm7 = Chord::from_name("Dm7").unwrap();
    let g7 = Chord::from_name("G7").unwrap();
    let cmaj7 = Chord::from_name("Cmaj7").unwrap();
    proof {
        lemma_literal_fits(dm7);
        lemma_literal_fits(g7);
        lemma_literal_fits(cmaj7);
    }
    let chords = vec![dm7, g7, cmaj7];
    Progression::from_chord_sequence(chords)
}


/// The circle of fifths as a chain of major triads in octave 4:
/// F-C-G-D-A-E-B-F#-C#-G#-D#-A#.
pub fn circle_of_fifths() -> (p: Progression)
    ensures
        p.chords@.len() == 12,
        forall|k: int|
            0 <= k < 12 ==> chord_is(
                #[trigger] p.chords@[k],
                (60 + circle_of_fifths_classes()[k]) as u8,
                ChordQuality::Major,
                Seq::empty(),
            ),
        p.well_formed(),
        forall|i: int, j: int|
            0 <= i < 12 && 0 <= j < 12 ==> #[trigger] p.weights@[i]@[j] == chain_weight(p.chords@, i, j),
{
    let fifths: [u8; 12] = [5, 0, 7, 2, 9, 4, 11, 6, 1, 8, 3, 10];
    proof {
        assert(fifths@ =~= circle_of_fifths_classes());
    }
    let mut chords: Vec<Chord> = Vec::new();
    let mut k: usize = 0;
    while k < 12
        invariant
            k <= 12,
            fifths@ == circle_of_fifths_classes(),
            chords@.len() == k,
            forall|c: int| 0 <= c < 12 ==> #[trigger] fifths@[c] < 12,
            forall|c: int|
                0 <= c < k ==> chord_is(
                    #[trigger] chords@[c],
                    (60 + fifths@[c]) as u8,
                    ChordQuality::Major,
                    Seq::empty(),
                ),
            all_fit(chords@),
        decreases 12 - k,
    {
        let pc = fifths[k];
        let c = Chord::new(Pitch { midi: 60 + pc }, ChordQuality::Major);
        proof {
            lemma_literal_fits(c);
        }
        chords.push(c);
        k = k + 1;
    }
    Progression::from_chord_sequence(chords)
}

/// Pitch classes of the circle of fifths, from F.
pub open spec fn circle_of_fifths_classes() -> Seq<u8> {
    seq![5u8, 0u8, 7u8, 2u8, 9u8, 4u8, 11u8, 6u8, 1u8, 8u8, 3u8, 10u8]
}

/// I-vi-ii-V turnaround: Cmaj7, Am7, Dm7, G7, as a chain.
pub fn one_six_two_five() -> (p: Progression)
    ensures
        p.chords@.len() == 4,
        chord_is(p.chords@[0], 60, ChordQuality::Major, seq![7u8]),
        chord_is(p.chords@[1], 69, ChordQuality::Minor, seq![7u8]),
        chord_is(p.chords@[2], 62, ChordQuality::Minor, seq![7u8]),
        chord_is(p.chords@[3], 67, ChordQuality::Dominant, seq![7u8]),
        p.well_formed(),
        forall|i: int, j: int|
            0 <= i < 4 && 0 <= j < 4 ==> #[trigger] p.weights@[i]@[j] == chain_weight(p.chords@, i, j),
{
    proof {
        reveal_strlit("Cmaj7");
        reveal_strlit("Am7");
        reveal_strlit("Dm7");
        reveal_strlit("G7");
        lemma_trimmed_unchanged("Cmaj7"@);
        lemma_trimmed_unchanged("Am7"@);
        lemma_trimmed_unchanged("Dm7"@);
        lemma_trimmed_unchanged("G7"@);
        lemma_starts_with_first("Am7"@.subrange(1, 3), seq!['\u{f8}', '7']);
        lemma_starts_with_first("Dm7"@.subrange(1, 3), seq!['\u{f8}', '7']);
        lemma_starts_with_first("G7"@.subrange(1, 2), seq!['m']);
    }
    let c1 = Chord::from_name("Cmaj7").unwrap();
    let c2 = Chord::from_name("Am7").unwrap();
    let c3 = Chord::from_name("Dm7").unwrap();
    let c4 = Chord::from_name("G7").unwrap();
    proof {
        lemma_literal_fits(c1);
        lemma_literal_fits(c2);
        lemma_literal_fits(c3);
        lemma_literal_fits(c4);
    }
    Progression::from_chord_sequence(vec![c1, c2, c3, c4])
}

/// I-IV-V-I cadence: C, F, G, C, as a chain.
pub fn one_four_five_one() -> (p: Progression)
    ensures
        p.chords@.len() == 4,
        chord_is(p.chords@[0], 60, ChordQuality::Major, Seq::empty()),
        chord_is(p.chords@[1], 65, ChordQuality::Major, Seq::empty()),
        chord_is(p.chords@[2], 67, ChordQuality::Major, Seq::empty()),
        chord_is(p.chords@[3], 60, ChordQuality::Major, Seq::empty()),
        p.well_formed(),
        forall|i: int, j: int|
            0 <= i < 4 && 0 <= j < 4 ==> #[trigger] p.weights@[i]@[j] == chain_weight(p.chords@, i, j),
{
    proof {
        reveal_strlit("C");
        reveal_strlit("F");
        reveal_strlit("G");
        lemma_trimmed_unchanged("C"@);
        lemma_trimmed_unchanged("F"@);
        lemma_trimmed_unchanged("G"@);
    }
    let c1 = Chord::from_name("C").unwrap();
    let c2 = Chord::from_name("F").unwrap();
    let c3 = Chord::from_name("G").unwrap();
    let c4 = Chord::from_name("C").unwrap();
    proof {
        lemma_literal_fits(c1);
        lemma_literal_fits(c2);
        lemma_literal_fits(c3);
        lemma_literal_fits(c4);
    }
    Progression::from_chord_sequence(vec![c1, c2, c3, c4])
}

/// Pitch classes of the atonal comparison progression.
pub open spec fn random_classes() -> Seq<u8> {
    seq![0u8, 1u8, 3u8, 6u8, 8u8, 11u8]
}

/// Qualities of the atonal comparison progression.
pub open spec fn random_qualities() -> Seq<ChordQuality> {
    seq![
        ChordQuality::Major,
        ChordQuality::Diminished,
        ChordQuality::Augmented,
        ChordQuality::Dominant,
        ChordQuality::HalfDiminished,
        ChordQuality::Minor,
    ]
}

/// Random (atonal) progression for comparison: six chromatic-ish roots in
/// octave 4, each with a different quality, as a chain.
pub fn random_progression() -> (p: Progression)
    ensures
        p.chords@.len() == 6,
        forall|k: int|
            0 <= k < 6 ==> chord_is(
                #[trigger] p.chords@[k],
                (60 + random_classes()[k]) as u8,
                random_qualities()[k],
                Seq::empty(),
            ),
        p.well_formed(),
        forall|i: int, j: int|
            0 <= i < 6 && 0 <= j < 6 ==> #[trigger] p.weights@[i]@[j] == chain_weight(p.chords@, i, j),
{
    let pcs: [u8; 6] = [0, 1, 3, 6, 8, 11];
    let qualities: [ChordQuality; 6] = [
        ChordQuality::Major,
        ChordQuality::Diminished,
        ChordQuality::Augmented,
        ChordQuality::Dominant,
        ChordQuality::HalfDiminished,
        ChordQuality::Minor,
    ];
    proof {
        assert(pcs@ =~= random_classes());
        assert(qualities@ =~= random_qualities());
    }
    let mut chords: Vec<Chord> = Vec::new();
    let mut k: usize = 0;
    while k < 6
        invariant
            k <= 6,
            pcs@ == random_classes(),
            qualities@ == random_qualities(),
            chords@.len() == k,
            forall|c: int|
                0 <= c < k ==> chord_is(
                    #[trigger] chords@[c],
                    (60 + pcs@[c]) as u8,
                    qualities@[c],
                    Seq::empty(),
                ),
            all_fit(chords@),
        decreases 6 - k,
    {
        let c = Chord::new(Pitch { midi: 60 + pcs[k] }, qualities[k]);
        proof {
            lemma_literal_fits(c);
        }
        chords.push(c);
        k = k + 1;
    }
    Progression::from_chord_sequence(chords)
}

} // verus!
