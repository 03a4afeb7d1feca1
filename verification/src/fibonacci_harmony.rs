//! Fibonacci harmony: chords placed around the circle of fifths at
//! Fibonacci distances from a key.

use vstd::prelude::*;

use crate::chord::{Chord, ChordQuality, lemma_chord_intervals};
use crate::pitch::Pitch;
use crate::progression::{Progression, all_fit, chain_weight, chord_is};

verus! {

/// Fibonacci-spaced chord progressions and golden-ratio harmony.
pub struct FibonacciHarmony;

/// The Fibonacci numbers: 0, 1, 1, 2, 3, 5, ...
pub open spec fn fib(n: nat) -> nat
    decreases n,
{
    if n == 0 {
        0
    } else if n == 1 {
        1
    } else {
        fib((n - 1) as nat) + fib((n - 2) as nat)
    }
}

/// Number of chords in a Fibonacci progression: the Fibonacci numbers
/// fib(0) ..= fib(generations), and never fewer than the first two.
pub open spec fn fibonacci_chord_count(generations: int) -> int {
    if generations <= 1 {
        2
    } else {
        generations + 1
    }
}

/// Pitch class reached from `key` by `f` steps of a fifth (7 semitones).
pub open spec fn fifths_from(key: u8, f: nat) -> int {
    (key + f * 7) % 12
}

/// Classes that get a major chord: C, G, F, D, A; the others get minor.
pub open spec fn fibonacci_quality(pc: int) -> ChordQuality {
    if pc == 0 || pc == 7 || pc == 5 || pc == 2 || pc == 9 {
        ChordQuality::Major
    } else {
        ChordQuality::Minor
    }
}

/// The Fibonacci numbers never decrease.
pub proof fn lemma_fib_monotone(i: nat, j: nat)
    requires
        i <= j,
    ensures
        fib(i) <= fib(j),
    decreases j,
{
    if i < j {
        lemma_fib_monotone(i, (j - 1) as nat);
        if j >= 2 {
            assert(fib(j) == fib((j - 1) as nat) + fib((j - 2) as nat));
        }
    }
}

/// The Fibonacci numbers grow at least as fast as n - 1.
pub proof fn lemma_fib_at_least(n: nat)
    ensures
        fib(n) + 1 >= n,
    decreases n,
{
    if n >= 2 {
        lemma_fib_at_least((n - 1) as nat);
        lemma_fib_at_least((n - 2) as nat);
        if n == 2 {
            assert(fib(1) == 1);
        }
    }
}

/// Place of pitch class `pc` on the circle of fifths, counted in fifths up
/// from C (G is 1, D is 2, ..., F is 11).
pub open spec fn fifths_above_c(pc: int) -> int {
    (pc * 7) % 12
}

/// The Fibonacci progression gives a major chord exactly to the five classes
/// that stand next to each other on the circle of fifths from F to A (F, C,
/// G, D, A: one fifth below C to three above), and a minor chord to the
/// other seven.
pub proof fn lemma_major_on_five_neighbouring_fifths(pc: int)
    requires
        0 <= pc < 12,
    ensures
        fibonacci_quality(pc) == ChordQuality::Major <==> (fifths_above_c(pc) <= 3 || fifths_above_c(pc)
            == 11),
        fibonacci_quality(pc) == ChordQuality::Major || fibonacci_quality(pc) == ChordQuality::Minor,
{
    assert(fifths_above_c(0) == 0);
    assert(fifths_above_c(1) == 7);
    assert(fifths_above_c(2) == 2);
    assert(fifths_above_c(3) == 9);
    assert(fifths_above_c(4) == 4);
    assert(fifths_above_c(5) == 11);
    assert(fifths_above_c(6) == 6);
    assert(fifths_above_c(7) == 1);
    assert(fifths_above_c(8) == 8);
    assert(fifths_above_c(9) == 3);
    assert(fifths_above_c(10) == 10);
    assert(fifths_above_c(11) == 5);
}

/// Extensions of a chord that carries a seventh, or of one that does not.
pub open spec fn seventh_if(seventh: bool) -> Seq<u8> {
    if seventh {
        seq![7u8]
    } else {
        Seq::empty()
    }
}

/// The chords `cs` are those that `t` lists as root MIDI number, quality and
/// whether a seventh is added.
pub open spec fn chords_match(cs: Seq<Chord>, t: Seq<(u8, ChordQuality, bool)>) -> bool {
    &&& cs.len() == t.len()
    &&& forall|j: int| 0 <= j < t.len() ==> chord_is(#[trigger] cs[j], t[j].0, t[j].1, seventh_if(t[j].2))
}

/// The standard jazz progressions by name, each chord as root MIDI number
/// (octave 4), quality and whether a seventh is added.
pub open spec fn jazz_table() -> Seq<(Seq<char>, Seq<(u8, ChordQuality, bool)>)> {
    let maj = ChordQuality::Major;
    let min = ChordQuality::Minor;
    let dom = ChordQuality::Dominant;
    seq![
        ("ii-V-I"@, seq![(62u8, min, true), (67u8, dom, true), (60u8, maj, true)]),
        ("I-vi-ii-V"@, seq![(60u8, maj, true), (69u8, min, true), (62u8, min, true), (67u8, dom, true)]),
        ("I-IV-V-I"@, seq![(60u8, maj, false), (65u8, maj, false), (67u8, maj, false), (60u8, maj, false)]),
        ("I-vi-IV-V"@, seq![(60u8, maj, false), (69u8, min, false), (65u8, maj, false), (67u8, maj, false)]),
        ("ii-V-I-vi"@, seq![(62u8, min, true), (67u8, dom, true), (60u8, maj, true), (69u8, min, true)]),
        ("I-iii-vi-ii"@, seq![(60u8, maj, false), (64u8, min, false), (69u8, min, false), (62u8, min, false)]),
        ("Circle of Fifths"@, seq![
            (65u8, maj, false),
            (60u8, maj, false),
            (67u8, maj, false),
            (62u8, maj, false),
            (69u8, maj, false),
            (64u8, maj, false),
        ]),
        ("iii-VI-ii-V"@, seq![(64u8, min, true), (69u8, dom, true), (62u8, min, true), (67u8, dom, true)]),
        ("Tritone Sub"@, seq![(62u8, min, true), (61u8, dom, true), (60u8, maj, true)]),
        ("Coltrane Changes"@, seq![
            (60u8, maj, true),
            (63u8, dom, true),
            (69u8, min, true),
            (61u8, dom, true),
            (67u8, maj, true),
        ]),
    ]
}

/// A chord of the table: root, quality, and a seventh when asked for.
fn table_chord(midi: u8, quality: ChordQuality, seventh: bool) -> (c: Chord)
    ensures
        chord_is(c, midi, quality, seventh_if(seventh)),
{
    let extensions: Vec<u8> = if seventh {
        vec![7]
    } else {
        Vec::new()
    };
    assert(extensions@ =~= seventh_if(seventh));
    Chord { root: Pitch { midi }, quality, extensions }
}

/// A named entry of the table.
fn table_entry(name: &str, chords: Vec<Chord>) -> (r: (String, Vec<Chord>))
    ensures
        r.0@ == name@,
        r.1@ == chords@,
{
    (name.to_owned(), chords)
}

impl FibonacciHarmony {
    /// Generate a Fibonacci-spaced chord progression: chord `k` stands
    /// fib(k) fifths above the key (in octave 4), major on C, G, F, D or A and
    /// minor elsewhere, for k = 0 ..= generations (at least k = 0, 1); the
    /// chords form a chain.
    pub fn fibonacci_progression(key_pitch_class: u8, generations: usize) -> (p: Progression)
        requires
            key_pitch_class + fib(
                if generations <= 1 {
                    1nat
                } else {
                    generations as nat
                },
            ) * 7 <= usize::MAX,
        ensures
            p.chords@.len() == fibonacci_chord_count(generations as int),
            forall|k: int|
                0 <= k < p.chords@.len() ==> chord_is(
                    #[trigger] p.chords@[k],
                    (60 + fifths_from(key_pitch_class, fib(k as nat))) as u8,
                    fibonacci_quality(fifths_from(key_pitch_class, fib(k as nat))),
                    Seq::empty(),
                ),
            p.well_formed(),
            forall|i: int, j: int|
                0 <= i < p.chords@.len() && 0 <= j < p.chords@.len() ==> #[trigger] p.weights@[i]@[j]
                    == chain_weight(p.chords@, i, j),
            forall|k: int|
                0 <= k < p.chords@.len() ==> 60 <= (#[trigger] p.chords@[k]).root.midi < 72 && (
                p.chords@[k].quality == ChordQuality::Major <==> (fifths_above_c(
                    p.chords@[k].root.midi - 60,
                ) <= 3 || fifths_above_c(p.chords@[k].root.midi - 60) == 11)) && (
                p.chords@[k].quality == ChordQuality::Major || p.chords@[k].quality
                    == ChordQuality::Minor),
    {
        let ghost top: nat = if generations <= 1 {
            1nat
        } else {
            generations as nat
        };
        proof {
            lemma_fib_at_least(top);
        }
        let mut fibs: Vec<usize> = vec![0, 1];
        let mut i: usize = 2;
        proof {
            assert(fibs@[0] == fib(0));
            assert(fibs@[1] == fib(1));
        }
        while i <= generations
            invariant
                2 <= i,
                i <= generations + 1 || i == 2,
                generations < usize::MAX,
                top == if generations <= 1 {
                    1nat
                } else {
                    generations as nat
                },
                key_pitch_class + fib(top) * 7 <= usize::MAX,
                fibs@.len() == i,
                forall|k: int| 0 <= k < i ==> #[trigger] fibs@[k] == fib(k as nat),
            decreases generations + 1 - i,
        {
            proof {
                lemma_fib_monotone(i as nat, top);
                assert(fib(i as nat) == fib((i - 1) as nat) + fib((i - 2) as nat));
            }
            let next = fibs[i - 1] + fibs[i - 2];
            fibs.push(next);
            i = i + 1;
        }
        proof {
            assert(fibs@.len() == fibonacci_chord_count(generations as int));
        }
        let mut chords: Vec<Chord> = Vec::new();
        let mut k: usize = 0;
        while k < fibs.len()
            invariant
                k <= fibs@.len(),
                fibs@.len() == fibonacci_chord_count(generations as int),
                top == if generations <= 1 {
                    1nat
                } else {
                    generations as nat
                },
                key_pitch_class + fib(top) * 7 <= usize::MAX,
                forall|q: int| 0 <= q < fibs@.len() ==> #[trigger] fibs@[q] == fib(q as nat),
                chords@.len() == k,
                forall|c: int|
                    0 <= c < k ==> chord_is(
                        #[trigger] chords@[c],
                        (60 + fifths_from(key_pitch_class, fib(c as nat))) as u8,
                        fibonacci_quality(fifths_from(key_pitch_class, fib(c as nat))),
                        Seq::empty(),
                    ),
                all_fit(chords@),
            decreases fibs@.len() - k,
        {
            let f = fibs[k];
            proof {
                lemma_fib_monotone(k as nat, top);
                assert(f * 7 <= fib(top) * 7) by (nonlinear_arith)
                    requires
                        f <= fib(top),
                ;
            }
            let pc = (key_pitch_class as usize + f * 7) % 12;
            let quality = if pc == 0 || pc == 7 || pc == 5 || pc == 2 || pc == 9 {
                ChordQuality::Major
            } else {
                ChordQuality::Minor
            };
            let c = Chord::new(Pitch { midi: 60 + pc as u8 }, quality);
            proof {
                lemma_chord_intervals(quality, c.extensions@);
            }
            chords.push(c);
            k = k + 1;
        }
        let p = Progression::from_chord_sequence(chords);
        proof {
            assert forall|k: int| 0 <= k < p.chords@.len() implies 60 <= (#[trigger] p.chords@[k]).root.midi
                < 72 && (p.chords@[k].quality == ChordQuality::Major <==> (fifths_above_c(
                p.chords@[k].root.midi - 60,
            ) <= 3 || fifths_above_c(p.chords@[k].root.midi - 60) == 11)) && (
            p.chords@[k].quality == ChordQuality::Major || p.chords@[k].quality
                == ChordQuality::Minor) by {
                let pc = fifths_from(key_pitch_class, fib(k as nat));
                assert(0 <= pc < 12);
                lemma_major_on_five_neighbouring_fifths(pc);
                assert(p.chords@[k].root.midi - 60 == pc);
            }
        }
        p
    }

    /// The standard jazz progressions, by name, in the order in which
    /// `jazz_progressions_by_cr` ranks them before sorting: ii-V-I, I-vi-ii-V,
    /// I-IV-V-I, I-vi-IV-V, ii-V-I-vi, I-iii-vi-ii, the circle of fifths from
    /// F to E, iii-VI-ii-V, the tritone substitution and Coltrane changes.
    pub fn jazz_progressions() -> (ps: Vec<(String, Vec<Chord>)>)
        ensures
            ps@.len() == jazz_table().len(),
            forall|i: int|
                0 <= i < ps@.len() ==> (#[trigger] ps@[i]).0@ == jazz_table()[i].0 && chords_match(
                    ps@[i].1@,
                    jazz_table()[i].1,
                ),
    {
        let maj = ChordQuality::Major;
        let min = ChordQuality::Minor;
        let dom = ChordQuality::Dominant;
        let ps = vec![
            table_entry("ii-V-I", vec![table_chord(62, min, true), table_chord(67, dom, true), table_chord(60, maj, true)]),
            table_entry("I-vi-ii-V", vec![
                table_chord(60, maj, true),
                table_chord(69, min, true),
                table_chord(62, min, true),
                table_chord(67, dom, true),
            ]),
            table_entry("I-IV-V-I", vec![
                table_chord(60, maj, false),
                table_chord(65, maj, false),
                table_chord(67, maj, false),
                table_chord(60, maj, false),
            ]),
            table_entry("I-vi-IV-V", vec![
                table_chord(60, maj, false),
                table_chord(69, min, false),
                table_chord(65, maj, false),
                table_chord(67, maj, false),
            ]),
            table_entry("ii-V-I-vi", vec![
                table_chord(62, min, true),
                table_chord(67, dom, true),
                table_chord(60, maj, true),
                table_chord(69, min, true),
            ]),
            table_entry("I-iii-vi-ii", vec![
                table_chord(60, maj, false),
                table_chord(64, min, false),
                table_chord(69, min, false),
                table_chord(62, min, false),
            ]),
            table_entry("Circle of Fifths", vec![
                table_chord(65, maj, false),
                table_chord(60, maj, false),
                table_chord(67, maj, false),
                table_chord(62, maj, false),
                table_chord(69, maj, false),
                table_chord(64, maj, false),
            ]),
            table_entry("iii-VI-ii-V", vec![
                table_chord(64, min, true),
                table_chord(69, dom, true),
                table_chord(62, min, true),
                table_chord(67, dom, true),
            ]),
            table_entry("Tritone Sub", vec![table_chord(62, min, true), table_chord(61, dom, true), table_chord(60, maj, true)]),
            table_entry("Coltrane Changes", vec![
                table_chord(60, maj, true),
                table_chord(63, dom, true),
                table_chord(69, min, true),
                table_chord(61, dom, true),
                table_chord(67, maj, true),
            ]),
        ];
        ps
    }
}

} // verus!
