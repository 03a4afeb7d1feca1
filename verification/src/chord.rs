//! Chords: the nodes of the spectral graph. A chord is a root, a quality and
//! optional extensions; its pitches follow from the quality's intervals.

use vstd::prelude::*;
use vstd::set_lib::{lemma_int_range, lemma_len_subset, set_int_range};
use vstd::seq_lib::seq_to_set_is_finite;

use crate::pitch::{
    Interval, Pitch, letter_offset, scientific_name,
    to_uppercase_first, char_upper,
};

verus! {

/// Chord quality: the harmonic "flavor".
#[derive(Debug, Clone, Copy, PartialEq, Eq, Structural, Hash)]
pub enum ChordQuality {
    Major,
    Minor,
    Dominant,
    Diminished,
    HalfDiminished,
    Augmented,
    Suspended,
}

/// A chord: root + quality + optional extensions (7, 9, 11, 13).
#[derive(Debug, Clone, PartialEq)]
pub struct Chord {
    pub root: Pitch,
    pub quality: ChordQuality,
    pub extensions: Vec<u8>,
}

// ---------------------------------------------------------------------------
// Specification
// ---------------------------------------------------------------------------

/// Intervals of a quality above its root, in semitones, root excluded.
pub open spec fn quality_intervals(q: ChordQuality) -> Seq<i8> {
    match q {
        ChordQuality::Major => seq![4i8, 7i8],
        ChordQuality::Minor => seq![3i8, 7i8],
        ChordQuality::Dominant => seq![4i8, 7i8, 10i8],
        ChordQuality::Diminished => seq![3i8, 6i8, 9i8],
        ChordQuality::HalfDiminished => seq![3i8, 6i8, 10i8],
        ChordQuality::Augmented => seq![4i8, 8i8],
        ChordQuality::Suspended => seq![5i8, 7i8],
    }
}

/// Semitones above the root of the tone that an extension names: the
/// seventh (major over a major triad, diminished over a diminished one, minor
/// otherwise), the ninth, the eleventh or the thirteenth. Other numbers name
/// no tone.
pub open spec fn extension_interval(q: ChordQuality, e: u8) -> Option<i8> {
    if e == 7 {
        match q {
            ChordQuality::Major => Some(11i8),
            ChordQuality::Diminished => Some(9i8),
            _ => Some(10i8),
        }
    } else if e == 9 {
        Some(14i8)
    } else if e == 11 {
        Some(17i8)
    } else if e == 13 {
        Some(21i8)
    } else {
        None
    }
}

/// Intervals above the root of a chord with quality `q` and extensions
/// `exts`: the quality's intervals, then the tone of each extension in turn,
/// unless that interval is already present (a seventh chord's quality already
/// holds its seventh).
pub open spec fn chord_intervals(q: ChordQuality, exts: Seq<u8>) -> Seq<i8>
    decreases exts.len(),
{
    if exts.len() == 0 {
        quality_intervals(q)
    } else {
        let prev = chord_intervals(q, exts.drop_last());
        match extension_interval(q, exts.last()) {
            Some(iv) => if prev.contains(iv) {
                prev
            } else {
                prev.push(iv)
            },
            None => prev,
        }
    }
}

/// The pitches of a chord with root `root`, quality `q` and extensions
/// `exts`: the root, then one pitch per interval of `chord_intervals`.
pub open spec fn chord_pitches(root: Pitch, q: ChordQuality, exts: Seq<u8>) -> Seq<Pitch> {
    seq![root] + chord_intervals(q, exts).map_values(
        |iv: i8| Pitch { midi: (root.midi + iv) as u8 },
    )
}

/// The chord's pitches stay within a MIDI byte.
pub open spec fn pitches_fit(root: Pitch, q: ChordQuality, exts: Seq<u8>) -> bool {
    forall|i: int|
        0 <= i < chord_intervals(q, exts).len() ==> root.midi + #[trigger] chord_intervals(
            q,
            exts,
        )[i] <= 255
}

/// Some pitch of `ps` has pitch class `pc`.
pub open spec fn has_pitch_class(ps: Seq<Pitch>, pc: int) -> bool {
    exists|i: int| 0 <= i < ps.len() && #[trigger] ps[i].midi % 12 == pc
}

/// The pitch classes below `k` that occur in `ps`, in increasing order.
pub open spec fn classes_below(ps: Seq<Pitch>, k: int) -> Seq<u8>
    decreases k,
{
    if k <= 0 {
        Seq::empty()
    } else if has_pitch_class(ps, k - 1) {
        classes_below(ps, k - 1).push((k - 1) as u8)
    } else {
        classes_below(ps, k - 1)
    }
}

/// The distinct pitch classes of `ps`, in increasing order.
pub open spec fn pitch_class_set(ps: Seq<Pitch>) -> Seq<u8> {
    classes_below(ps, 12)
}

/// Distance between two pitch classes going the short way round the octave.
pub open spec fn circular_gap(a: u8, b: u8) -> int {
    let d = if a >= b {
        a - b
    } else {
        b - a
    };
    if d <= 12 - d {
        d
    } else {
        12 - d
    }
}

/// The step from pitch `p` to the pitch class of `q` that moves least: up
/// by at most six semitones, or down by fewer than six.
pub open spec fn shortest_step(p: u8, q: u8) -> int {
    let up = (q % 12 + 12 - p % 12) % 12;
    if up <= 6 {
        up
    } else {
        up - 12
    }
}

/// The pitch-class list `a` padded to length `n` by copies of its first
/// class, placed in front.
pub open spec fn padded(a: Seq<u8>, n: int) -> Seq<u8> {
    Seq::new((n - a.len()) as nat, |i: int| a[0]) + a
}

/// `s` pairs each of `n` positions with a position of its own among `n`.
pub open spec fn is_pairing(s: Seq<usize>, n: int) -> bool {
    &&& s.len() == n
    &&& forall|i: int| 0 <= i < n ==> #[trigger] s[i] < n
    &&& forall|i: int, j: int| 0 <= i < j < n ==> #[trigger] s[i] != #[trigger] s[j]
}

/// Sum of the circular gaps between `x[i]` and `y[s[i]]` for `i < k`.
pub open spec fn pairing_cost(x: Seq<u8>, y: Seq<u8>, s: Seq<usize>, k: int) -> int
    decreases k,
{
    if k <= 0 {
        0
    } else {
        pairing_cost(x, y, s, k - 1) + circular_gap(x[k - 1], y[s[k - 1] as int])
    }
}

/// `c` is the least total of circular gaps over all pairings of the classes
/// of `x` with those of `y` (lists of one length).
pub open spec fn is_least_pairing_cost(x: Seq<u8>, y: Seq<u8>, c: int) -> bool {
    &&& exists|s: Seq<usize>| is_pairing(s, x.len() as int) && #[trigger] pairing_cost(x, y, s, x.len() as int) == c
    &&& forall|s: Seq<usize>| is_pairing(s, x.len() as int) ==> c <= #[trigger] pairing_cost(x, y, s, x.len() as int)
}

/// The least total of circular gaps over all pairings of `x` with `y`.
pub open spec fn least_pairing_cost(x: Seq<u8>, y: Seq<u8>) -> int {
    choose|c: int| is_least_pairing_cost(x, y, c)
}

/// Two pitch-class lists brought to one length: the shorter is padded to
/// the other's length by repeating its first class.
pub open spec fn padded_pair(a: Seq<u8>, b: Seq<u8>) -> (Seq<u8>, Seq<u8>) {
    let n = if a.len() >= b.len() {
        a.len() as int
    } else {
        b.len() as int
    };
    (padded(a, n), padded(b, n))
}

/// Voice-leading cost between two pitch-class lists: pad the shorter one to
/// the other's length by repeating its first class, then take the pairing of
/// the two lists that moves least.
pub open spec fn class_list_cost(a: Seq<u8>, b: Seq<u8>) -> int {
    if a.len() == 0 && b.len() == 0 {
        0
    } else {
        least_pairing_cost(padded_pair(a, b).0, padded_pair(a, b).1)
    }
}

/// Suffix that names a quality; `has_seventh` tells whether 7 is among the
/// extensions.
pub open spec fn quality_suffix(q: ChordQuality, has_seventh: bool) -> Seq<char> {
    match q {
        ChordQuality::Major => if has_seventh {
            seq!['m', 'a', 'j', '7']
        } else {
            Seq::empty()
        },
        ChordQuality::Minor => if has_seventh {
            seq!['m', '7']
        } else {
            seq!['m']
        },
        ChordQuality::Dominant => seq!['7'],
        ChordQuality::Diminished => if has_seventh {
            seq!['d', 'i', 'm', '7']
        } else {
            seq!['d', 'i', 'm']
        },
        ChordQuality::HalfDiminished => seq!['m', '7', 'b', '5'],
        ChordQuality::Augmented => seq!['a', 'u', 'g'],
        ChordQuality::Suspended => seq!['s', 'u', 's'],
    }
}

impl Chord {
    /// The chord's pitches.
    pub open spec fn spec_pitches(self) -> Seq<Pitch> {
        chord_pitches(self.root, self.quality, self.extensions@)
    }

    /// The chord's pitches stay within a MIDI byte.
    pub open spec fn fits(self) -> bool {
        pitches_fit(self.root, self.quality, self.extensions@)
    }

    /// The chord's distinct pitch classes, in increasing order.
    pub open spec fn spec_pitch_classes(self) -> Seq<u8> {
        pitch_class_set(self.spec_pitches())
    }

    /// Voice-leading cost from this chord to `other`.
    pub open spec fn spec_voice_leading_cost(self, other: Chord) -> int {
        class_list_cost(self.spec_pitch_classes(), other.spec_pitch_classes())
    }
}

// ---------------------------------------------------------------------------
// Lemmas
// ---------------------------------------------------------------------------

/// Every interval of a quality lies strictly between 0 and 12, in
/// increasing order.
pub proof fn lemma_quality_intervals_bounded(q: ChordQuality)
    ensures
        2 <= quality_intervals(q).len() <= 3,
        forall|i: int|
            0 <= i < quality_intervals(q).len() ==> 0 < #[trigger] quality_intervals(q)[i] < 12,
        forall|i: int, j: int|
            0 <= i < j < quality_intervals(q).len() ==> #[trigger] quality_intervals(q)[i]
                < #[trigger] quality_intervals(q)[j],
{
}

/// A chord's intervals begin with its quality's, lie strictly between 0 and
/// 22, and are all different.
pub proof fn lemma_chord_intervals(q: ChordQuality, exts: Seq<u8>)
    ensures
        chord_intervals(q, exts).len() >= quality_intervals(q).len() >= 2,
        forall|i: int|
            0 <= i < quality_intervals(q).len() ==> #[trigger] chord_intervals(q, exts)[i]
                == quality_intervals(q)[i],
        forall|i: int|
            0 <= i < chord_intervals(q, exts).len() ==> 0 < #[trigger] chord_intervals(q, exts)[i]
                <= 21,
        forall|i: int, j: int|
            0 <= i < j < chord_intervals(q, exts).len() ==> #[trigger] chord_intervals(q, exts)[i]
                != #[trigger] chord_intervals(q, exts)[j],
    decreases exts.len(),
{
    lemma_quality_intervals_bounded(q);
    if exts.len() > 0 {
        lemma_chord_intervals(q, exts.drop_last());
        let prev = chord_intervals(q, exts.drop_last());
        match extension_interval(q, exts.last()) {
            Some(iv) => {
                if !prev.contains(iv) {
                    let cur = prev.push(iv);
                    assert forall|i: int, j: int| 0 <= i < j < cur.len() implies cur[i] != cur[j] by {
                        if j == prev.len() {
                            if cur[i] == cur[j] {
                                assert(prev[i] == iv);
                            }
                        }
                    }
                }
            },
            None => {},
        }
    }
}

/// The seventh that extension 7 names above a chord of quality `q`: a major
/// seventh (11 semitones) over a major triad, a diminished seventh (9) over a
/// diminished triad, and a minor seventh (10) over every other quality, the
/// half-diminished chord among them.
pub open spec fn seventh_of(q: ChordQuality) -> int {
    match q {
        ChordQuality::Major => 11,
        ChordQuality::Diminished => 9,
        _ => 10,
    }
}

/// A seventh chord (extension 7 alone, as a name ending in "7" reads) has
/// four pitches: the root, then, rising within the octave above it, the
/// quality's intervals and the seventh on top. A quality of three intervals
/// (dominant, diminished, half-diminished) already holds its seventh, so
/// nothing is added to it.
pub proof fn lemma_seventh_chord_pitches(root: Pitch, q: ChordQuality)
    ensures
        chord_pitches(root, q, seq![7u8]).len() == 4,
        chord_intervals(q, seq![7u8]).len() == 3,
        forall|i: int|
            0 <= i < quality_intervals(q).len() ==> #[trigger] chord_intervals(q, seq![7u8])[i]
                == quality_intervals(q)[i],
        forall|i: int, j: int|
            0 <= i < j < 3 ==> #[trigger] chord_intervals(q, seq![7u8])[i] < #[trigger] chord_intervals(
                q,
                seq![7u8],
            )[j],
        forall|i: int| 0 <= i < 3 ==> 0 < #[trigger] chord_intervals(q, seq![7u8])[i] <= 11,
        chord_intervals(q, seq![7u8])[2] == seventh_of(q),
{
    let e = seq![7u8];
    assert(e.drop_last() =~= Seq::<u8>::empty());
    assert(e.last() == 7u8);
    let qi = quality_intervals(q);
    let ivs = chord_intervals(q, e);
    assert(chord_intervals(q, e.drop_last()) == qi);
    match q {
        ChordQuality::Dominant => {
            assert(qi.contains(10i8)) by { assert(qi[2] == 10i8); }
        },
        ChordQuality::Diminished => {
            assert(qi.contains(9i8)) by { assert(qi[2] == 9i8); }
        },
        ChordQuality::HalfDiminished => {
            assert(qi.contains(10i8)) by { assert(qi[2] == 10i8); }
        },
        ChordQuality::Major => {
            assert(!qi.contains(11i8));
        },
        ChordQuality::Minor => {
            assert(!qi.contains(10i8));
        },
        ChordQuality::Augmented => {
            assert(!qi.contains(10i8));
        },
        ChordQuality::Suspended => {
            assert(!qi.contains(10i8));
        },
    }
    lemma_chord_pitches(root, q, e);
}

/// A chord with one upper extension (9, 11 or 13) gets one more pitch, an
/// octave above the second, the fourth or the sixth over its root: 14, 17 or
/// 21 semitones up, above all of the quality's own pitches.
pub proof fn lemma_upper_extension_pitches(root: Pitch, q: ChordQuality, e: u8)
    requires
        e == 9 || e == 11 || e == 13,
    ensures
        chord_intervals(q, seq![e]) == quality_intervals(q).push(
            if e == 9 {
                (12 + 2) as i8
            } else if e == 11 {
                (12 + 5) as i8
            } else {
                (12 + 9) as i8
            },
        ),
        chord_pitches(root, q, seq![e]).len() == quality_intervals(q).len() + 2,
{
    let s = seq![e];
    assert(s.drop_last() =~= Seq::<u8>::empty());
    assert(s.last() == e);
    let qi = quality_intervals(q);
    assert(chord_intervals(q, s.drop_last()) == qi);
    lemma_quality_intervals_bounded(q);
    let iv = extension_interval(q, e)->0;
    assert(extension_interval(q, e) == Some(iv));
    assert(!qi.contains(iv)) by {
        if qi.contains(iv) {
            let i = choose|i: int| 0 <= i < qi.len() && qi[i] == iv;
            assert(qi[i] < 12);
        }
    }
    lemma_chord_pitches(root, q, s);
}

/// The chord's pitches: root first, then the root moved by each interval.
pub proof fn lemma_chord_pitches(root: Pitch, q: ChordQuality, exts: Seq<u8>)
    ensures
        chord_pitches(root, q, exts).len() == chord_intervals(q, exts).len() + 1,
        chord_pitches(root, q, exts).len() >= 3,
        chord_pitches(root, q, exts)[0] == root,
        forall|i: int|
            1 <= i < chord_pitches(root, q, exts).len() ==> (#[trigger] chord_pitches(
                root,
                q,
                exts,
            )[i]).midi == (root.midi + chord_intervals(q, exts)[i - 1]) as u8,
{
    lemma_chord_intervals(q, exts);
}

/// A chord has at most 22 pitches: the root and distinct intervals of 1 to
/// 21 semitones.
pub proof fn lemma_chord_pitch_count(c: Chord)
    ensures
        c.spec_pitches().len() <= 22,
{
    let ivs = chord_intervals(c.quality, c.extensions@);
    lemma_chord_intervals(c.quality, c.extensions@);
    lemma_chord_pitches(c.root, c.quality, c.extensions@);
    let t = ivs.map_values(|iv: i8| iv as int);
    assert forall|k: int| t.to_set().contains(k) implies set_int_range(1, 22).contains(k) by {
        let i = choose|i: int| 0 <= i < t.len() && t[i] == k;
        assert(0 < ivs[i] <= 21);
    }
    assert(t.no_duplicates()) by {
        assert forall|i: int, j: int| 0 <= i < t.len() && 0 <= j < t.len() && i != j implies t[i] != t[j] by {
            if i < j {
                assert(ivs[i] != ivs[j]);
            } else {
                assert(ivs[j] != ivs[i]);
            }
        }
    }
    t.unique_seq_to_set();
    lemma_int_range(1, 22);
    lemma_len_subset(t.to_set(), set_int_range(1, 22));
}

/// The classes in `classes_below(ps, k)` are strictly increasing, below `k`,
/// and are exactly the classes below `k` that occur in `ps`.
pub proof fn lemma_classes_below(ps: Seq<Pitch>, k: int)
    requires
        0 <= k <= 256,
    ensures
        forall|i: int, j: int|
            0 <= i < j < classes_below(ps, k).len() ==> classes_below(ps, k)[i]
                < classes_below(ps, k)[j],
        forall|i: int| 0 <= i < classes_below(ps, k).len() ==> classes_below(ps, k)[i] < k,
        forall|pc: int|
            0 <= pc < k ==> (classes_below(ps, k).contains(pc as u8) <==> has_pitch_class(
                ps,
                pc,
            )),
        classes_below(ps, k).len() <= k,
    decreases k,
{
    if k > 0 {
        lemma_classes_below(ps, k - 1);
        let prev = classes_below(ps, k - 1);
        assert forall|pc: int|
            0 <= pc < k implies (classes_below(ps, k).contains(pc as u8) <==> has_pitch_class(
                ps,
                pc,
            )) by {
            if has_pitch_class(ps, k - 1) {
                let cur = prev.push((k - 1) as u8);
                assert(cur == classes_below(ps, k));
                if pc == k - 1 {
                    assert(cur[prev.len() as int] == (k - 1) as u8);
                } else {
                    if cur.contains(pc as u8) {
                        let j = choose|j: int| 0 <= j < cur.len() && cur[j] == pc as u8;
                        if j == prev.len() {
                            assert(false);
                        }
                        assert(prev[j] == pc as u8);
                    }
                    if prev.contains(pc as u8) {
                        let j = choose|j: int| 0 <= j < prev.len() && prev[j] == pc as u8;
                        assert(cur[j] == pc as u8);
                    }
                }
            } else {
                if pc == k - 1 {
                    if prev.contains(pc as u8) {
                        let j = choose|j: int| 0 <= j < prev.len() && prev[j] == pc as u8;
                        assert(prev[j] < k - 1);
                    }
                }
            }
        }
    }
}

/// A chord has at least one pitch class, and at most twelve.
pub proof fn lemma_pitch_class_set_nonempty(c: Chord)
    ensures
        1 <= c.spec_pitch_classes().len() <= 12,
{
    let ps = c.spec_pitches();
    lemma_chord_pitches(c.root, c.quality, c.extensions@);
    lemma_classes_below(ps, 12);
    let pc = (c.root.midi % 12) as int;
    assert(ps[0].midi % 12 == pc);
    assert(has_pitch_class(ps, pc));
    assert(c.spec_pitch_classes().contains(pc as u8));
}

/// The circular gap is symmetric and at most 6 for pitch classes.
pub proof fn lemma_circular_gap(a: u8, b: u8)
    requires
        a < 12,
        b < 12,
    ensures
        circular_gap(a, b) == circular_gap(b, a),
        0 <= circular_gap(a, b) <= 6,
        circular_gap(a, a) == 0,
{
}

/// Each pair of a pairing moves at most six semitones.
pub proof fn lemma_pairing_cost_bound(x: Seq<u8>, y: Seq<u8>, s: Seq<usize>, k: int)
    requires
        0 <= k <= x.len(),
        is_pairing(s, x.len() as int),
        y.len() == x.len(),
        forall|i: int| 0 <= i < x.len() ==> #[trigger] x[i] < 12,
        forall|i: int| 0 <= i < y.len() ==> #[trigger] y[i] < 12,
    ensures
        0 <= pairing_cost(x, y, s, k) <= 6 * k,
    decreases k,
{
    if k > 0 {
        lemma_pairing_cost_bound(x, y, s, k - 1);
        lemma_circular_gap(x[k - 1], y[s[k - 1] as int]);
    }
}

/// The least pairing cost is a single number.
pub proof fn lemma_least_pairing_cost_unique(x: Seq<u8>, y: Seq<u8>, c: int)
    requires
        is_least_pairing_cost(x, y, c),
    ensures
        least_pairing_cost(x, y) == c,
{
    let d = least_pairing_cost(x, y);
    assert(is_least_pairing_cost(x, y, d));
    let s1 = choose|s: Seq<usize>| is_pairing(s, x.len() as int) && #[trigger] pairing_cost(x, y, s, x.len() as int) == c;
    let s2 = choose|s: Seq<usize>| is_pairing(s, x.len() as int) && #[trigger] pairing_cost(x, y, s, x.len() as int) == d;
    assert(c <= pairing_cost(x, y, s2, x.len() as int));
    assert(d <= pairing_cost(x, y, s1, x.len() as int));
}

/// `s` begins with the entries of `p`.
spec fn begins_with(s: Seq<usize>, p: Seq<usize>) -> bool {
    p.len() <= s.len() && forall|i: int| 0 <= i < p.len() ==> #[trigger] s[i] == p[i]
}

/// Every pairing that begins with `chosen` and whose next choice is below
/// `j` has been tried: one was found, and none moves less than `best`.
spec fn tried_below(x: Seq<u8>, y: Seq<u8>, chosen: Seq<usize>, j: int, found: bool, best: int) -> bool {
    forall|s: Seq<usize>|
        is_pairing(s, x.len() as int) && begins_with(s, chosen) && s[chosen.len() as int] < j
            ==> no_less_than(found, best, #[trigger] pairing_cost(x, y, s, x.len() as int))
}

/// Something was found, and `best` is at most `c`.
spec fn no_less_than(found: bool, best: int, c: int) -> bool {
    found && best <= c
}

/// What `tried_below` says of one pairing.
proof fn lemma_tried_below(x: Seq<u8>, y: Seq<u8>, chosen: Seq<usize>, j: int, found: bool, best: int, s: Seq<usize>)
    requires
        tried_below(x, y, chosen, j, found, best),
        is_pairing(s, x.len() as int),
        begins_with(s, chosen),
        s[chosen.len() as int] < j,
    ensures
        found,
        best <= pairing_cost(x, y, s, x.len() as int),
{
}

/// A choice that `chosen` already holds cannot come next.
proof fn lemma_tried_skip(x: Seq<u8>, y: Seq<u8>, chosen: Seq<usize>, j: int, found: bool, best: int, i: int)
    requires
        tried_below(x, y, chosen, j, found, best),
        chosen.len() < x.len(),
        0 <= i < chosen.len(),
        chosen[i] == j,
    ensures
        tried_below(x, y, chosen, j + 1, found, best),
{
    let k = chosen.len() as int;
    assert forall|s: Seq<usize>|
        is_pairing(s, x.len() as int) && begins_with(s, chosen) && s[k] < j + 1 implies no_less_than(found,
            best, #[trigger] pairing_cost(x, y, s, x.len() as int)) by {
        if s[k] == j {
            assert(s[i] == chosen[i]);
            assert(s[i] != s[k]);
        } else {
            lemma_tried_below(x, y, chosen, j, found, best, s);
        }
    }
}

/// Trying the choice `j` next, whose completions cost at least `r`, and
/// keeping the lesser of `r` and the best so far.
proof fn lemma_tried_take(
    x: Seq<u8>,
    y: Seq<u8>,
    chosen: Seq<usize>,
    j: int,
    found: bool,
    best: int,
    r: int,
    new_best: int,
)
    requires
        tried_below(x, y, chosen, j, found, best),
        chosen.len() < x.len(),
        forall|s: Seq<usize>|
            is_pairing(s, x.len() as int) && begins_with(s, chosen.push(j as usize)) ==> r
                <= #[trigger] pairing_cost(x, y, s, x.len() as int),
        0 <= j,
        new_best <= r,
        found ==> new_best <= best,
    ensures
        tried_below(x, y, chosen, j + 1, true, new_best),
{
    let next = chosen.push(j as usize);
    assert forall|s: Seq<usize>|
        is_pairing(s, x.len() as int) && begins_with(s, chosen) && s[chosen.len() as int] < j + 1 implies no_less_than(true,
            new_best, #[trigger] pairing_cost(x, y, s, x.len() as int)) by {
        if s[chosen.len() as int] < j {
            lemma_tried_below(x, y, chosen, j, found, best, s);
        } else {
            assert forall|i: int| 0 <= i < next.len() implies #[trigger] s[i] == next[i] by {
                if i < chosen.len() {
                    assert(s[i] == chosen[i]);
                }
            }
            assert(begins_with(s, next));
        }
    }
}

/// Sum of `g[t[j]]` over the entries `t[j]` of `t`.
pub open spec fn sum_through(t: Seq<usize>, g: Seq<int>) -> int
    decreases t.len(),
{
    if t.len() == 0 {
        0
    } else {
        sum_through(t.drop_last(), g) + g[t.last() as int]
    }
}

/// Sum of `g[i]` over `i < k`.
pub open spec fn sum_prefix(g: Seq<int>, k: int) -> int
    decreases k,
{
    if k <= 0 {
        0
    } else {
        sum_prefix(g, k - 1) + g[k - 1]
    }
}

/// Taking one entry out of `t` takes its term out of the sum.
proof fn lemma_sum_through_remove(t: Seq<usize>, g: Seq<int>, p: int)
    requires
        0 <= p < t.len(),
    ensures
        sum_through(t, g) == sum_through(t.remove(p), g) + g[t[p] as int],
    decreases t.len(),
{
    let u = t.remove(p);
    if p == t.len() - 1 {
        assert(u =~= t.drop_last());
    } else {
        assert(u.drop_last() =~= t.drop_last().remove(p));
        assert(u.last() == t.last());
        lemma_sum_through_remove(t.drop_last(), g, p);
    }
}

/// Every one of the `n` positions is taken by some entry of a pairing.
pub proof fn lemma_pairing_onto(t: Seq<usize>, n: int, v: int)
    requires
        is_pairing(t, n),
        0 <= v < n,
    ensures
        exists|p: int| 0 <= p < n && #[trigger] t[p] == v,
{
    if !(exists|p: int| 0 <= p < n && #[trigger] t[p] == v) {
        let t2 = t.map_values(|x: usize| x as int);
        let r = set_int_range(0, n).remove(v);
        assert forall|k: int| t2.to_set().contains(k) implies r.contains(k) by {
            let i = choose|i: int| 0 <= i < t2.len() && t2[i] == k;
            assert(t[i] < n);
        }
        assert(t2.no_duplicates()) by {
            assert forall|i: int, j: int| 0 <= i < t2.len() && 0 <= j < t2.len() && i != j implies t2[i]
                != t2[j] by {
                if i < j {
                    assert(t[i] != t[j]);
                } else {
                    assert(t[j] != t[i]);
                }
            }
        }
        t2.unique_seq_to_set();
        lemma_int_range(0, n);
        lemma_len_subset(t2.to_set(), r);
        assert(false);
    }
}

/// Summing `g` through a pairing of `n` positions adds each of `g[0..n]` once.
pub proof fn lemma_sum_through_pairing(t: Seq<usize>, g: Seq<int>, n: int)
    requires
        is_pairing(t, n),
        n <= g.len(),
    ensures
        sum_through(t, g) == sum_prefix(g, n),
    decreases n,
{
    if n > 0 {
        lemma_pairing_onto(t, n, n - 1);
        let p = choose|p: int| 0 <= p < n && #[trigger] t[p] == n - 1;
        let u = t.remove(p);
        assert(is_pairing(u, n - 1)) by {
            assert forall|i: int| 0 <= i < n - 1 implies #[trigger] u[i] < n - 1 by {
                if i < p {
                    assert(t[i] != t[p]);
                } else {
                    assert(t[i + 1] != t[p]);
                }
            }
            assert forall|i: int, j: int| 0 <= i < j < n - 1 implies #[trigger] u[i] != #[trigger] u[j] by {
                if j < p {
                    assert(t[i] != t[j]);
                } else if i < p {
                    assert(t[i] != t[j + 1]);
                } else {
                    assert(t[i + 1] != t[j + 1]);
                }
            }
        }
        lemma_sum_through_remove(t, g, p);
        lemma_sum_through_pairing(u, g, n - 1);
    }
}

/// The gaps of a pairing, position by position.
pub open spec fn pairing_gaps(x: Seq<u8>, y: Seq<u8>, s: Seq<usize>) -> Seq<int> {
    Seq::new(x.len(), |i: int| circular_gap(x[i], y[s[i] as int]))
}

/// A pairing's cost is the sum of its gaps.
proof fn lemma_pairing_cost_as_sum(x: Seq<u8>, y: Seq<u8>, s: Seq<usize>, k: int)
    requires
        0 <= k <= x.len(),
    ensures
        pairing_cost(x, y, s, k) == sum_prefix(pairing_gaps(x, y, s), k),
    decreases k,
{
    if k > 0 {
        lemma_pairing_cost_as_sum(x, y, s, k - 1);
    }
}

/// Read backwards, pairing `s` is `t`: the cost from `y` to `x` through `t`
/// adds the gaps of `s` in the order that `t` lists them.
proof fn lemma_inverse_cost(x: Seq<u8>, y: Seq<u8>, s: Seq<usize>, t: Seq<usize>, k: int)
    requires
        0 <= k <= t.len(),
        x.len() == y.len(),
        t.len() == x.len(),
        s.len() == x.len(),
        forall|j: int| 0 <= j < t.len() ==> #[trigger] t[j] < x.len(),
        forall|j: int| 0 <= j < t.len() ==> s[#[trigger] t[j] as int] == j,
    ensures
        pairing_cost(y, x, t, k) == sum_through(t.subrange(0, k), pairing_gaps(x, y, s)),
    decreases k,
{
    if k > 0 {
        lemma_inverse_cost(x, y, s, t, k - 1);
        assert(t.subrange(0, k).drop_last() =~= t.subrange(0, k - 1));
        assert(s[t[k - 1] as int] == k - 1);
    }
}

/// Every pairing from `x` to `y` has a reverse pairing from `y` to `x` of
/// the same cost.
pub proof fn lemma_reverse_pairing(x: Seq<u8>, y: Seq<u8>, s: Seq<usize>)
    requires
        x.len() == y.len() <= usize::MAX,
        is_pairing(s, x.len() as int),
    ensures
        exists|t: Seq<usize>|
            is_pairing(t, x.len() as int) && #[trigger] pairing_cost(y, x, t, x.len() as int)
                == pairing_cost(x, y, s, x.len() as int),
{
    let n = x.len() as int;
    let t = Seq::new(n as nat, |j: int| (choose|p: int| 0 <= p < n && #[trigger] s[p] == j) as usize);
    assert forall|j: int| 0 <= j < n implies #[trigger] t[j] < n && s[t[j] as int] == j by {
        lemma_pairing_onto(s, n, j);
        let p = choose|p: int| 0 <= p < n && #[trigger] s[p] == j;
        assert(0 <= p < n && s[p] == j);
    }
    assert(is_pairing(t, n)) by {
        assert forall|i: int, j: int| 0 <= i < j < n implies #[trigger] t[i] != #[trigger] t[j] by {
            assert(s[t[i] as int] == i);
            assert(s[t[j] as int] == j);
        }
    }
    lemma_inverse_cost(x, y, s, t, n);
    assert(t.subrange(0, n) =~= t);
    lemma_sum_through_pairing(t, pairing_gaps(x, y, s), n);
    lemma_pairing_cost_as_sum(x, y, s, n);
    assert(pairing_cost(y, x, t, n) == pairing_cost(x, y, s, n));
}

/// The least pairing cost does not depend on which list comes first.
pub proof fn lemma_least_pairing_cost_symmetric(x: Seq<u8>, y: Seq<u8>)
    requires
        x.len() == y.len() <= usize::MAX,
        exists|c: int| is_least_pairing_cost(x, y, c),
        exists|c: int| is_least_pairing_cost(y, x, c),
    ensures
        least_pairing_cost(x, y) == least_pairing_cost(y, x),
{
    let n = x.len() as int;
    let c1 = least_pairing_cost(x, y);
    let c2 = least_pairing_cost(y, x);
    assert(is_least_pairing_cost(x, y, c1));
    assert(is_least_pairing_cost(y, x, c2));
    let s1 = choose|s: Seq<usize>| is_pairing(s, n) && #[trigger] pairing_cost(x, y, s, n) == c1;
    let s2 = choose|s: Seq<usize>| is_pairing(s, n) && #[trigger] pairing_cost(y, x, s, n) == c2;
    lemma_reverse_pairing(x, y, s1);
    lemma_reverse_pairing(y, x, s2);
    let t1 = choose|t: Seq<usize>| is_pairing(t, n) && #[trigger] pairing_cost(y, x, t, n) == pairing_cost(x, y, s1, n);
    let t2 = choose|t: Seq<usize>| is_pairing(t, n) && #[trigger] pairing_cost(x, y, t, n) == pairing_cost(y, x, s2, n);
    assert(c2 <= pairing_cost(y, x, t1, n));
    assert(c1 <= pairing_cost(x, y, t2, n));
}

/// A pairing that moves no more than `b` leads to a least pairing cost.
proof fn lemma_least_below(x: Seq<u8>, y: Seq<u8>, b: nat)
    requires
        x.len() == y.len(),
        forall|i: int| 0 <= i < x.len() ==> #[trigger] x[i] < 12,
        forall|i: int| 0 <= i < y.len() ==> #[trigger] y[i] < 12,
        exists|s: Seq<usize>| is_pairing(s, x.len() as int) && #[trigger] pairing_cost(x, y, s, x.len() as int) <= b,
    ensures
        exists|c: int| is_least_pairing_cost(x, y, c),
    decreases b,
{
    let n = x.len() as int;
    let s = choose|s: Seq<usize>| is_pairing(s, n) && #[trigger] pairing_cost(x, y, s, n) <= b;
    if b > 0 && exists|t: Seq<usize>| is_pairing(t, n) && #[trigger] pairing_cost(x, y, t, n) <= b - 1 {
        lemma_least_below(x, y, (b - 1) as nat);
    } else {
        lemma_pairing_cost_bound(x, y, s, n);
        assert forall|t: Seq<usize>| is_pairing(t, n) implies pairing_cost(x, y, s, n) <= #[trigger] pairing_cost(x, y, t, n) by {
            lemma_pairing_cost_bound(x, y, t, n);
        }
        assert(is_least_pairing_cost(x, y, pairing_cost(x, y, s, n)));
    }
}

/// Pairing each position with itself.
pub open spec fn identity_pairing(n: int) -> Seq<usize> {
    Seq::new(n as nat, |i: int| i as usize)
}

/// Pairing a list with itself position by position moves nothing.
proof fn lemma_identity_pairing_cost(x: Seq<u8>, k: int)
    requires
        0 <= k <= x.len(),
        x.len() <= usize::MAX,
    ensures
        pairing_cost(x, x, identity_pairing(x.len() as int), k) == 0,
    decreases k,
{
    if k > 0 {
        lemma_identity_pairing_cost(x, k - 1);
    }
}

/// Two pitch-class lists of one length with classes below 12 have a least
/// pairing cost, at most six per position.
pub proof fn lemma_least_pairing_cost_exists(x: Seq<u8>, y: Seq<u8>)
    requires
        x.len() == y.len() <= 12,
        forall|i: int| 0 <= i < x.len() ==> #[trigger] x[i] < 12,
        forall|i: int| 0 <= i < y.len() ==> #[trigger] y[i] < 12,
    ensures
        is_least_pairing_cost(x, y, least_pairing_cost(x, y)),
        0 <= least_pairing_cost(x, y) <= 6 * x.len(),
{
    let n = x.len() as int;
    let id = identity_pairing(n);
    assert(is_pairing(id, n));
    lemma_pairing_cost_bound(x, y, id, n);
    lemma_least_below(x, y, pairing_cost(x, y, id, n) as nat);
    let c = least_pairing_cost(x, y);
    assert(is_least_pairing_cost(x, y, c));
    let w = choose|s: Seq<usize>| is_pairing(s, n) && #[trigger] pairing_cost(x, y, s, n) == c;
    lemma_pairing_cost_bound(x, y, w, n);
}

/// A chord's pitch classes, padded to length `n`, are classes below 12.
proof fn lemma_padded_classes(c: Chord, n: int)
    requires
        c.spec_pitch_classes().len() <= n,
    ensures
        padded(c.spec_pitch_classes(), n).len() == n,
        forall|i: int| 0 <= i < n ==> #[trigger] padded(c.spec_pitch_classes(), n)[i] < 12,
{
    let pa = c.spec_pitch_classes();
    lemma_pitch_class_set_nonempty(c);
    lemma_classes_below(c.spec_pitches(), 12);
    let x = padded(pa, n);
    assert forall|i: int| 0 <= i < n implies #[trigger] x[i] < 12 by {
        if i >= n - pa.len() {
            assert(x[i] == pa[i - (n - pa.len())]);
        } else {
            assert(x[i] == pa[0]);
        }
    }
}

/// Voice-leading cost is symmetric, zero from a chord to itself, and at
/// most 72 semitones.
pub proof fn lemma_voice_leading_cost_symmetric(a: Chord, b: Chord)
    ensures
        a.spec_voice_leading_cost(b) == b.spec_voice_leading_cost(a),
        a.spec_voice_leading_cost(a) == 0,
        0 <= a.spec_voice_leading_cost(b) <= 72,
{
    let pa = a.spec_pitch_classes();
    let pb = b.spec_pitch_classes();
    lemma_pitch_class_set_nonempty(a);
    lemma_pitch_class_set_nonempty(b);
    let n = if pa.len() >= pb.len() {
        pa.len() as int
    } else {
        pb.len() as int
    };
    lemma_padded_classes(a, n);
    lemma_padded_classes(b, n);
    let x = padded(pa, n);
    let y = padded(pb, n);
    lemma_least_pairing_cost_exists(x, y);
    lemma_least_pairing_cost_exists(y, x);
    lemma_least_pairing_cost_symmetric(x, y);
    let m = pa.len() as int;
    lemma_padded_classes(a, m);
    let z = padded(pa, m);
    lemma_least_pairing_cost_exists(z, z);
    lemma_identity_pairing_cost(z, m);
    assert(is_pairing(identity_pairing(m), m));
}

// ---------------------------------------------------------------------------
// ChordQuality
// ---------------------------------------------------------------------------

impl ChordQuality {
    /// Interval pattern from root in semitones (excluding root).
    pub fn intervals(&self) -> (s: &'static [i8])
        ensures
            s@ == quality_intervals(*self),
    {
        match self {
            ChordQuality::Major => &[4, 7],
            ChordQuality::Minor => &[3, 7],
            ChordQuality::Dominant => &[4, 7, 10],
            ChordQuality::Diminished => &[3, 6, 9],
            ChordQuality::HalfDiminished => &[3, 6, 10],
            ChordQuality::Augmented => &[4, 8],
            ChordQuality::Suspended => &[5, 7],
        }
    }
}


/// Interval of the tone that an extension names, if any.
fn extension_tone(q: ChordQuality, e: u8) -> (r: Option<i8>)
    ensures
        r == extension_interval(q, e),
{
    if e == 7 {
        match q {
            ChordQuality::Major => Some(11),
            ChordQuality::Diminished => Some(9),
            _ => Some(10),
        }
    } else if e == 9 {
        Some(14)
    } else if e == 11 {
        Some(17)
    } else if e == 13 {
        Some(21)
    } else {
        None
    }
}

// ---------------------------------------------------------------------------
// Chord
// ---------------------------------------------------------------------------

impl Chord {
    /// Create a chord with no extensions.
    pub fn new(root: Pitch, quality: ChordQuality) -> (c: Chord)
        ensures
            c.root == root,
            c.quality == quality,
            c.extensions@ == Seq::<u8>::empty(),
    {
        let c = Chord { root, quality, extensions: Vec::new() };
        assert(c.extensions@ =~= Seq::<u8>::empty());
        c
    }

    /// All pitches in this chord: the root, then one per interval of the
    /// quality, then the tone of each extension not already present.
    pub fn pitches(&self) -> (ps: Vec<Pitch>)
        requires
            self.fits(),
        ensures
            ps@ == self.spec_pitches(),
            self.extensions@ == seq![7u8] ==> ps@.len() == 4 && ps@[3].midi == self.root.midi
                + seventh_of(self.quality),
    {
        let ivs = interval_list(self.quality, &self.extensions);
        let ghost all = chord_intervals(self.quality, self.extensions@);
        proof {
            lemma_chord_intervals(self.quality, self.extensions@);
        }
        let mut result = vec![self.root];
        let mut k: usize = 0;
        while k < ivs.len()
            invariant
                ivs@ == all,
                all == chord_intervals(self.quality, self.extensions@),
                self.fits(),
                k <= ivs@.len(),
                forall|i: int| 0 <= i < all.len() ==> 0 < #[trigger] all[i] <= 21,
                result@ == seq![self.root] + ivs@.subrange(0, k as int).map_values(
                    |iv: i8| Pitch { midi: (self.root.midi + iv) as u8 },
                ),
            decreases ivs@.len() - k,
        {
            let semitone = ivs[k];
            assert(self.root.midi + all[k as int] <= 255);
            result.push(Pitch { midi: self.root.midi + semitone as u8 });
            k = k + 1;
            proof {
                assert(result@ =~= seq![self.root] + ivs@.subrange(0, k as int).map_values(
                    |iv: i8| Pitch { midi: (self.root.midi + iv) as u8 },
                ));
            }
        }
        proof {
            assert(ivs@.subrange(0, ivs@.len() as int) =~= ivs@);
            if self.extensions@ == seq![7u8] {
                lemma_seventh_chord_pitches(self.root, self.quality);
                lemma_chord_pitches(self.root, self.quality, self.extensions@);
            }
        }
        result
    }

    /// Whether every pitch of the chord stays within a MIDI byte, so that
    /// its pitches can be computed.
    pub fn fits_in_byte(&self) -> (b: bool)
        ensures
            b == self.fits(),
    {
        let ivs = interval_list(self.quality, &self.extensions);
        proof {
            lemma_chord_intervals(self.quality, self.extensions@);
        }
        let mut k: usize = 0;
        while k < ivs.len()
            invariant
                ivs@ == chord_intervals(self.quality, self.extensions@),
                k <= ivs@.len(),
                forall|i: int| 0 <= i < ivs@.len() ==> 0 < #[trigger] ivs@[i] <= 21,
                forall|i: int| 0 <= i < k ==> self.root.midi + #[trigger] ivs@[i] <= 255,
            decreases ivs@.len() - k,
        {
            if self.root.midi as u16 + ivs[k] as u16 > 255 {
                return false;
            }
            k = k + 1;
        }
        true
    }

    /// Pitch classes (0-11) in this chord, sorted, without repeats.
    pub fn pitch_classes(&self) -> (pcs: Vec<u8>)
        requires
            self.fits(),
        ensures
            pcs@ == self.spec_pitch_classes(),
            forall|i: int, j: int| 0 <= i < j < pcs@.len() ==> pcs@[i] < pcs@[j],
            forall|pc: int|
                0 <= pc < 12 ==> (pcs@.contains(pc as u8) <==> has_pitch_class(
                    self.spec_pitches(),
                    pc,
                )),
            forall|i: int| 0 <= i < pcs@.len() ==> pcs@[i] < 12,
            1 <= pcs@.len() <= 12,
    {
        let ps = self.pitches();
        let mut pcs: Vec<u8> = Vec::new();
        let mut pc: u8 = 0;
        while pc < 12
            invariant
                ps@ == self.spec_pitches(),
                pc <= 12,
                pcs@ == classes_below(ps@, pc as int),
            decreases 12 - pc,
        {
            let mut found = false;
            let mut i: usize = 0;
            while i < ps.len()
                invariant
                    i <= ps@.len(),
                    found <==> exists|j: int| 0 <= j < i && #[trigger] ps@[j].midi % 12 == pc,
                decreases ps@.len() - i,
            {
                if ps[i].pitch_class() == pc {
                    found = true;
                }
                i = i + 1;
            }
            if found {
                pcs.push(pc);
            }
            pc = pc + 1;
        }
        proof {
            lemma_classes_below(ps@, 12);
            lemma_pitch_class_set_nonempty(*self);
        }
        pcs
    }

    /// Voice leading intervals to another chord (minimal movement per voice):
    /// the i-th pitch of this chord moves to the i-th pitch of `other`, for as
    /// many pitches as both have, by the shortest step round the octave that
    /// reaches that pitch class (a tritone is taken upwards).
    pub fn voice_leading_to(&self, other: &Chord) -> (ivs: Vec<Interval>)
        requires
            self.fits(),
            other.fits(),
        ensures
            ivs@.len() == if self.spec_pitches().len() <= other.spec_pitches().len() {
                self.spec_pitches().len()
            } else {
                other.spec_pitches().len()
            },
            forall|i: int|
                0 <= i < ivs@.len() ==> (#[trigger] ivs@[i]).semitones == shortest_step(
                    self.spec_pitches()[i].midi,
                    other.spec_pitches()[i].midi,
                ),
    {
        let self_pitches = self.pitches();
        let other_pitches = other.pitches();
        let n = if self_pitches.len() <= other_pitches.len() {
            self_pitches.len()
        } else {
            other_pitches.len()
        };
        let mut intervals: Vec<Interval> = Vec::with_capacity(n);
        let mut i: usize = 0;
        while i < n
            invariant
                self_pitches@ == self.spec_pitches(),
                other_pitches@ == other.spec_pitches(),
                n <= self_pitches@.len(),
                n <= other_pitches@.len(),
                i <= n,
                intervals@.len() == i,
                forall|k: int|
                    0 <= k < i ==> (#[trigger] intervals@[k]).semitones == shortest_step(
                        self_pitches@[k].midi,
                        other_pitches@[k].midi,
                    ),
            decreases n - i,
        {
            let from = self_pitches[i].midi % 12;
            let to = other_pitches[i].midi % 12;
            let up: u8 = (to + 12 - from) % 12;
            let step: i8 = if up <= 6 {
                up as i8
            } else {
                up as i8 - 12
            };
            intervals.push(Interval { semitones: step });
            i = i + 1;
        }
        intervals
    }

    /// Optimal voice leading cost (minimal total semitone movement): the
    /// pitch-class lists of both chords, the shorter padded by repeating its
    /// first class, are paired in the way that moves least, each pair moving
    /// the short way round the octave.
    pub fn voice_leading_cost(&self, other: &Chord) -> (cost: u32)
        requires
            self.fits(),
            other.fits(),
        ensures
            cost == self.spec_voice_leading_cost(*other),
            is_least_pairing_cost(
                padded_pair(self.spec_pitch_classes(), other.spec_pitch_classes()).0,
                padded_pair(self.spec_pitch_classes(), other.spec_pitch_classes()).1,
                cost as int,
            ),
            cost <= 72,
    {
        let self_pcs = self.pitch_classes();
        let other_pcs = other.pitch_classes();
        let n = if self_pcs.len() >= other_pcs.len() {
            self_pcs.len()
        } else {
            other_pcs.len()
        };
        let from_pcs = pad_classes(&self_pcs, n);
        let to_pcs = pad_classes(&other_pcs, n);
        let start: Vec<usize> = Vec::new();
        assert(start@.len() == 0);
        let total = least_completion(&from_pcs, &to_pcs, &start);
        proof {
            let x = from_pcs@;
            let y = to_pcs@;
            let c = total as int;
            assert forall|s: Seq<usize>| is_pairing(s, n as int) implies c <= #[trigger] pairing_cost(
                x,
                y,
                s,
                n as int,
            ) by {
                assert(begins_with(s, start@));
            }
            assert(is_least_pairing_cost(x, y, c));
            lemma_least_pairing_cost_unique(x, y, c);
        }
        total
    }

    /// Name of the chord for display: the root's name, then the quality.
    pub fn name(&self) -> (s: String)
        ensures
            s@ == scientific_name(self.root.midi) + quality_suffix(
                self.quality,
                self.extensions@.contains(7u8),
            ),
    {
        let root_name = self.root.name();
        let has_seventh = contains_seventh(&self.extensions);
        proof {
            reveal_strlit("");
            reveal_strlit("maj7");
            reveal_strlit("m7");
            reveal_strlit("m");
            reveal_strlit("7");
            reveal_strlit("dim7");
            reveal_strlit("dim");
            reveal_strlit("m7b5");
            reveal_strlit("aug");
            reveal_strlit("sus");
        }
        let quality_str: &str = match self.quality {
            ChordQuality::Major => {
                if has_seventh {
                    "maj7"
                } else {
                    ""
                }
            },
            ChordQuality::Minor => {
                if has_seventh {
                    "m7"
                } else {
                    "m"
                }
            },
            ChordQuality::Dominant => "7",
            ChordQuality::Diminished => {
                if has_seventh {
                    "dim7"
                } else {
                    "dim"
                }
            },
            ChordQuality::HalfDiminished => "m7b5",
            ChordQuality::Augmented => "aug",
            ChordQuality::Suspended => "sus",
        };
        let mut s = root_name;
        s.append(quality_str);
        s
    }
}

/// A sorted pitch-class list padded to length `n` by repeating its smallest
/// class in front.
fn pad_classes(pcs: &Vec<u8>, n: usize) -> (out: Vec<u8>)
    requires
        1 <= pcs@.len() <= n <= 12,
        forall|i: int| 0 <= i < pcs@.len() ==> pcs@[i] < 12,
    ensures
        out@ == padded(pcs@, n as int),
        out@.len() == n,
        forall|k: int| 0 <= k < n ==> #[trigger] out@[k] < 12,
{
    let mut out: Vec<u8> = Vec::new();
    let extra = n - pcs.len();
    let smallest = pcs[0];
    let mut k: usize = 0;
    while k < extra
        invariant
            k <= extra,
            out@ =~= Seq::new(k as nat, |i: int| smallest),
        decreases extra - k,
    {
        out.push(smallest);
        k = k + 1;
    }
    let mut j: usize = 0;
    while j < pcs.len()
        invariant
            j <= pcs@.len(),
            out@ =~= Seq::new(extra as nat, |i: int| smallest) + pcs@.subrange(0, j as int),
        decreases pcs@.len() - j,
    {
        out.push(pcs[j]);
        j = j + 1;
    }
    proof {
        assert(pcs@.subrange(0, pcs@.len() as int) =~= pcs@);
        assert(out@ =~= padded(pcs@, n as int));
    }
    out
}

/// `j` occurs among the first entries of a pairing being built.
fn chosen_contains(chosen: &Vec<usize>, j: usize) -> (b: bool)
    ensures
        b == chosen@.contains(j),
{
    let mut i: usize = 0;
    while i < chosen.len()
        invariant
            i <= chosen@.len(),
            forall|k: int| 0 <= k < i ==> chosen@[k] != j,
        decreases chosen@.len() - i,
    {
        if chosen[i] == j {
            return true;
        }
        i = i + 1;
    }
    false
}

/// A pairing being built, extended by one more choice.
fn extend_choice(chosen: &Vec<usize>, j: usize) -> (r: Vec<usize>)
    ensures
        r@ == chosen@.push(j),
{
    let mut r: Vec<usize> = Vec::new();
    let mut i: usize = 0;
    while i < chosen.len()
        invariant
            i <= chosen@.len(),
            r@ == chosen@.subrange(0, i as int),
        decreases chosen@.len() - i,
    {
        r.push(chosen[i]);
        i = i + 1;
        proof {
            assert(r@ =~= chosen@.subrange(0, i as int));
        }
    }
    r.push(j);
    proof {
        assert(chosen@.subrange(0, chosen@.len() as int) =~= chosen@);
    }
    r
}

/// Total circular movement of the complete pairing `s`.
fn pairing_total(x: &Vec<u8>, y: &Vec<u8>, s: &Vec<usize>) -> (c: u32)
    requires
        x@.len() == y@.len() <= 12,
        is_pairing(s@, x@.len() as int),
        forall|i: int| 0 <= i < x@.len() ==> #[trigger] x@[i] < 12,
        forall|i: int| 0 <= i < y@.len() ==> #[trigger] y@[i] < 12,
    ensures
        c == pairing_cost(x@, y@, s@, x@.len() as int),
{
    let n = x.len();
    let mut total: u32 = 0;
    let mut i: usize = 0;
    while i < n
        invariant
            n == x@.len(),
            x@.len() == y@.len() <= 12,
            is_pairing(s@, n as int),
            forall|k: int| 0 <= k < x@.len() ==> #[trigger] x@[k] < 12,
            forall|k: int| 0 <= k < y@.len() ==> #[trigger] y@[k] < 12,
            i <= n,
            total == pairing_cost(x@, y@, s@, i as int),
            total <= 6 * i,
        decreases n - i,
    {
        let a = x[i];
        let b = y[s[i]];
        let diff: u8 = if a >= b {
            a - b
        } else {
            b - a
        };
        let circular: u8 = if diff <= 12 - diff {
            diff
        } else {
            12 - diff
        };
        proof {
            lemma_circular_gap(a, b);
        }
        total = total + circular as u32;
        i = i + 1;
    }
    total
}

/// The least total movement over the pairings of `x` with `y` whose first
/// choices are `chosen`: every way of completing `chosen` is tried.
fn least_completion(x: &Vec<u8>, y: &Vec<u8>, chosen: &Vec<usize>) -> (c: u32)
    requires
        x@.len() == y@.len() <= 12,
        forall|i: int| 0 <= i < x@.len() ==> #[trigger] x@[i] < 12,
        forall|i: int| 0 <= i < y@.len() ==> #[trigger] y@[i] < 12,
        chosen@.len() <= x@.len(),
        forall|i: int| 0 <= i < chosen@.len() ==> #[trigger] chosen@[i] < x@.len(),
        forall|i: int, j: int| 0 <= i < j < chosen@.len() ==> #[trigger] chosen@[i] != #[trigger] chosen@[j],
    ensures
        exists|s: Seq<usize>|
            is_pairing(s, x@.len() as int) && begins_with(s, chosen@)
                && #[trigger] pairing_cost(x@, y@, s, x@.len() as int) == c,
        forall|s: Seq<usize>|
            is_pairing(s, x@.len() as int) && begins_with(s, chosen@) ==> c
                <= #[trigger] pairing_cost(x@, y@, s, x@.len() as int),
        c <= 6 * x@.len(),
    decreases x@.len() - chosen@.len(),
{
    let n = x.len();
    let k = chosen.len();
    if k == n {
        let c = pairing_total(x, y, chosen);
        proof {
            assert(pairing_cost(x@, y@, chosen@, n as int) == c);
            lemma_pairing_cost_bound(x@, y@, chosen@, n as int);
            assert forall|s: Seq<usize>|
                is_pairing(s, n as int) && begins_with(s, chosen@) implies c
                    <= #[trigger] pairing_cost(x@, y@, s, n as int) by {
                assert(s =~= chosen@);
            }
        }
        return c;
    }
    let mut best: u32 = 0;
    let mut found = false;
    let mut j: usize = 0;
    while j < n
        invariant
            n == x@.len(),
            k == chosen@.len(),
            k < n,
            x@.len() == y@.len() <= 12,
            forall|i: int| 0 <= i < x@.len() ==> #[trigger] x@[i] < 12,
            forall|i: int| 0 <= i < y@.len() ==> #[trigger] y@[i] < 12,
            forall|i: int| 0 <= i < chosen@.len() ==> #[trigger] chosen@[i] < x@.len(),
            forall|i: int, i2: int| 0 <= i < i2 < chosen@.len() ==> #[trigger] chosen@[i] != #[trigger] chosen@[i2],
            j <= n,
            found ==> best <= 6 * n,
            found ==> exists|s: Seq<usize>|
                is_pairing(s, n as int) && begins_with(s, chosen@)
                    && #[trigger] pairing_cost(x@, y@, s, n as int) == best,
            tried_below(x@, y@, chosen@, j as int, found, best as int),
            !found ==> forall|v: usize| v < j ==> chosen@.contains(v),
        decreases n - j,
    {
        let ghost old_best = best;
        let ghost old_found = found;
        if !chosen_contains(chosen, j) {
            let next = extend_choice(chosen, j);
            proof {
                assert forall|i: int, i2: int| 0 <= i < i2 < next@.len() implies #[trigger] next@[i]
                    != #[trigger] next@[i2] by {
                    if i2 == k {
                        assert(chosen@[i] == next@[i]);
                    }
                }
            }
            let r = least_completion(x, y, &next);
            proof {
                let w = choose|s: Seq<usize>|
                    is_pairing(s, n as int) && begins_with(s, next@)
                        && #[trigger] pairing_cost(x@, y@, s, n as int) == r;
                assert(begins_with(w, chosen@)) by {
                    assert forall|i: int| 0 <= i < k implies w[i] == chosen@[i] by {
                        assert(w[i] == next@[i]);
                    }
                }
            }
            if !found || r < best {
                best = r;
                found = true;
            }
            proof {
                lemma_tried_take(x@, y@, chosen@, j as int, old_found, old_best as int, r as int, best as int);
            }
        } else {
            proof {
                let i = choose|i: int| 0 <= i < chosen@.len() && chosen@[i] == j;
                lemma_tried_skip(x@, y@, chosen@, j as int, found, best as int, i);
            }
        }
        j = j + 1;
    }
    proof {
        if !found {
            let t = chosen@.map_values(|v: usize| v as int);
            assert forall|v: int| set_int_range(0, n as int).contains(v) implies t.to_set().contains(v) by {
                assert(chosen@.contains(v as usize));
                let idx = choose|idx: int| 0 <= idx < chosen@.len() && chosen@[idx] == v as usize;
                assert(t[idx] == v);
            }
            lemma_int_range(0, n as int);
            t.lemma_cardinality_of_set();
            seq_to_set_is_finite(t);
            lemma_len_subset(set_int_range(0, n as int), t.to_set());
            assert(false);
        }
        assert forall|s: Seq<usize>|
            is_pairing(s, n as int) && begins_with(s, chosen@) implies best
                <= #[trigger] pairing_cost(x@, y@, s, n as int) by {
            assert(s[k as int] < n);
            assert(tried_below(x@, y@, chosen@, n as int, found, best as int));
        }
    }
    best
}

/// The intervals above the root of a chord with quality `q` and extensions
/// `exts`: the quality's, then the tone of each extension not already present.
fn interval_list(q: ChordQuality, exts: &Vec<u8>) -> (v: Vec<i8>)
    ensures
        v@ == chord_intervals(q, exts@),
{
    let ivs = q.intervals();
    let mut present: Vec<i8> = Vec::new();
    let mut k: usize = 0;
    while k < ivs.len()
        invariant
            ivs@ == quality_intervals(q),
            0 <= k <= ivs@.len(),
            present@ == ivs@.subrange(0, k as int),
        decreases ivs@.len() - k,
    {
        present.push(ivs[k]);
        k = k + 1;
        proof {
            assert(present@ =~= ivs@.subrange(0, k as int));
        }
    }
    proof {
        assert(present@ =~= chord_intervals(q, exts@.subrange(0, 0)));
    }
    let mut e: usize = 0;
    while e < exts.len()
        invariant
            e <= exts@.len(),
            present@ == chord_intervals(q, exts@.subrange(0, e as int)),
        decreases exts@.len() - e,
    {
        let ghost before = exts@.subrange(0, e as int);
        let ghost upto = exts@.subrange(0, e + 1);
        proof {
            assert(upto.drop_last() =~= before);
            assert(upto.last() == exts@[e as int]);
        }
        let tone = extension_tone(q, exts[e]);
        match tone {
            Some(iv) => {
                let mut seen = false;
                let mut i: usize = 0;
                while i < present.len()
                    invariant
                        i <= present@.len(),
                        seen <==> exists|j: int| 0 <= j < i && present@[j] == iv,
                    decreases present@.len() - i,
                {
                    if present[i] == iv {
                        seen = true;
                    }
                    i = i + 1;
                }
                if !seen {
                    present.push(iv);
                } else {
                    proof {
                        let j = choose|j: int| 0 <= j < present@.len() && present@[j] == iv;
                        assert(present@.contains(iv));
                    }
                }
            },
            None => {},
        }
        e = e + 1;
    }
    proof {
        assert(exts@.subrange(0, exts@.len() as int) =~= exts@);
    }
    present
}

/// Whether 7 is among the extensions.
fn contains_seventh(extensions: &Vec<u8>) -> (b: bool)
    ensures
        b == extensions@.contains(7u8),
{
    let mut i: usize = 0;
    while i < extensions.len()
        invariant
            i <= extensions@.len(),
            forall|k: int| 0 <= k < i ==> extensions@[k] != 7u8,
        decreases extensions@.len() - i,
    {
        if extensions[i] == 7 {
            return true;
        }
        i = i + 1;
    }
    false
}


// ---------------------------------------------------------------------------
// Reading chord names
// ---------------------------------------------------------------------------

/// A char with the Unicode property White_Space: tab, line feed, vertical
/// tab, form feed, carriage return, space, next line, no-break space, ogham
/// space mark, the spaces from en quad to hair space, line separator,
/// paragraph separator, narrow no-break space, medium mathematical space and
/// ideographic space.
pub open spec fn is_white_space(c: char) -> bool {
    ||| '\u{9}' <= c <= '\u{d}'
    ||| c == ' '
    ||| c == '\u{85}'
    ||| c == '\u{a0}'
    ||| c == '\u{1680}'
    ||| '\u{2000}' <= c <= '\u{200a}'
    ||| c == '\u{2028}'
    ||| c == '\u{2029}'
    ||| c == '\u{202f}'
    ||| c == '\u{205f}'
    ||| c == '\u{3000}'
}

/// Number of whitespace chars at the start of `s`.
pub open spec fn leading_white_space(s: Seq<char>) -> nat
    decreases s.len(),
{
    if s.len() > 0 && is_white_space(s[0]) {
        1 + leading_white_space(s.drop_first())
    } else {
        0
    }
}

/// Number of whitespace chars at the end of `s`.
pub open spec fn trailing_white_space(s: Seq<char>) -> nat
    decreases s.len(),
{
    if s.len() > 0 && is_white_space(s.last()) {
        1 + trailing_white_space(s.drop_last())
    } else {
        0
    }
}

/// `s` with its leading and trailing whitespace removed: empty when `s` is
/// all whitespace, else the part of `s` from its first char that is not
/// whitespace to its last.
pub open spec fn trimmed(s: Seq<char>) -> Seq<char> {
    let lead = leading_white_space(s);
    if lead == s.len() {
        Seq::empty()
    } else {
        s.subrange(lead as int, s.len() - trailing_white_space(s))
    }
}

/// A text that neither begins nor ends with whitespace is its own trimmed
/// text.
pub proof fn lemma_trimmed_unchanged(s: Seq<char>)
    requires
        s.len() > 0,
        !is_white_space(s[0]),
        !is_white_space(s.last()),
    ensures
        trimmed(s) == s,
{
    assert(s.subrange(0, s.len() as int) =~= s);
}

/// The leading whitespace of `s`: that many chars, all whitespace, and
/// followed by a char that is not.
pub proof fn lemma_leading_white_space(s: Seq<char>)
    ensures
        leading_white_space(s) <= s.len(),
        forall|i: int| 0 <= i < leading_white_space(s) ==> is_white_space(#[trigger] s[i]),
        leading_white_space(s) < s.len() ==> !is_white_space(s[leading_white_space(s) as int]),
    decreases s.len(),
{
    if s.len() > 0 && is_white_space(s[0]) {
        let r = s.drop_first();
        lemma_leading_white_space(r);
        assert forall|i: int| 0 <= i < leading_white_space(s) implies is_white_space(#[trigger] s[i]) by {
            if i > 0 {
                assert(s[i] == r[i - 1]);
            }
        }
        if leading_white_space(s) < s.len() {
            assert(s[leading_white_space(s) as int] == r[leading_white_space(r) as int]);
        }
    }
}

/// The trailing whitespace of `s`: that many chars, all whitespace, and
/// preceded by a char that is not.
pub proof fn lemma_trailing_white_space(s: Seq<char>)
    ensures
        trailing_white_space(s) <= s.len(),
        forall|i: int| s.len() - trailing_white_space(s) <= i < s.len() ==> is_white_space(#[trigger] s[i]),
        trailing_white_space(s) < s.len() ==> !is_white_space(s[s.len() - 1 - trailing_white_space(s)]),
    decreases s.len(),
{
    if s.len() > 0 && is_white_space(s.last()) {
        let r = s.drop_last();
        lemma_trailing_white_space(r);
        assert forall|i: int| s.len() - trailing_white_space(s) <= i < s.len() implies is_white_space(
            #[trigger] s[i],
        ) by {
            if i < s.len() - 1 {
                assert(s[i] == r[i]);
            }
        }
        if trailing_white_space(s) < s.len() {
            assert(s[s.len() - 1 - trailing_white_space(s)] == r[r.len() - 1 - trailing_white_space(r)]);
        }
    }
}

/// Trimming keeps the chars between the leading and the trailing
/// whitespace, which do not overlap: the trimmed text is the part of `s`
/// from index `leading_white_space(s)` on, and empty only when `s` is all
/// whitespace.
pub proof fn lemma_trimmed_part(s: Seq<char>)
    ensures
        trimmed(s).len() == 0 <==> leading_white_space(s) == s.len(),
        leading_white_space(s) + trimmed(s).len() <= s.len(),
        forall|i: int|
            0 <= i < trimmed(s).len() ==> #[trigger] trimmed(s)[i] == s[leading_white_space(s) + i],
{
    lemma_leading_white_space(s);
    lemma_trailing_white_space(s);
    let lead = leading_white_space(s) as int;
    let trail = trailing_white_space(s) as int;
    if lead < s.len() {
        if trail > s.len() - 1 - lead {
            assert(is_white_space(s[lead]));
        }
    }
}

/// An ASCII chord name is always read: what trimming leaves of it is ASCII,
/// so its root letter is ASCII and neither '♯' nor '♭' follows it.
pub proof fn lemma_ascii_names_are_read(s: Seq<char>)
    requires
        forall|i: int| 0 <= i < s.len() ==> (#[trigger] s[i] as u32) < 128,
    ensures
        root_is_readable(trimmed(s)),
{
    lemma_trimmed_part(s);
    let t = trimmed(s);
    let lead = leading_white_space(s) as int;
    if t.len() > 0 {
        assert(t[0] == s[lead]);
        assert((s[lead] as u32) < 128);
        if t.len() > 1 {
            assert(t[1] == s[lead + 1]);
            assert((s[lead + 1] as u32) < 128);
        }
    }
}

/// Calls `str::trim`, which, as its documentation states, returns the
/// string with leading and trailing whitespace removed, whitespace being the
/// chars with the Unicode property White_Space.
#[verifier::external_body]
pub(crate) fn trim_whitespace(s: &str) -> (t: &str)
    ensures
        t@ == trimmed(s@),
{
    s.trim()
}

/// One of the seven note letters, in upper case.
pub open spec fn is_note_letter(u: char) -> bool {
    u == 'C' || u == 'D' || u == 'E' || u == 'F' || u == 'G' || u == 'A' || u == 'B'
}

/// `s` begins with `p`.
pub open spec fn starts_with(s: Seq<char>, p: Seq<char>) -> bool {
    p.len() <= s.len() && s.subrange(0, p.len() as int) =~= p
}

/// A text whose first char differs from that of `p` does not begin with `p`.
pub proof fn lemma_starts_with_first(s: Seq<char>, p: Seq<char>)
    requires
        p.len() > 0,
        s.len() > 0,
        s[0] != p[0],
    ensures
        !starts_with(s, p),
{
    if p.len() <= s.len() {
        assert(s.subrange(0, p.len() as int)[0] == s[0]);
    }
}

/// Root pitch class of a chord name (its first char is a note letter, in
/// either case) and the number of chars that the root takes: a following '#'
/// or '♯' raises it, a following 'b' or '♭' lowers it.
pub open spec fn read_root(t: Seq<char>) -> (int, int) {
    let pc = letter_offset(char_upper(t[0]));
    if t.len() > 1 && (t[1] == '#' || t[1] == '\u{266F}') {
        (pc + 1, 2)
    } else if t.len() > 1 && (t[1] == 'b' || t[1] == '\u{266D}') {
        ((pc + 11) % 12, 2)
    } else {
        (pc, 1)
    }
}

/// Quality and extensions named by the text after the root; the first match
/// in this order wins, and anything else reads as a plain major chord.
pub open spec fn read_quality(rest: Seq<char>) -> (ChordQuality, Seq<u8>) {
    if starts_with(rest, seq!['m', 'a', 'j', '7']) {
        (ChordQuality::Major, seq![7u8])
    } else if starts_with(rest, seq!['m', 'a', 'j']) {
        (ChordQuality::Major, Seq::empty())
    } else if starts_with(rest, seq!['m', '7', 'b', '5']) || starts_with(rest, seq!['\u{f8}', '7']) {
        (ChordQuality::HalfDiminished, seq![7u8])
    } else if starts_with(rest, seq!['m', '7']) || starts_with(rest, seq!['m', 'i', 'n', '7']) {
        (ChordQuality::Minor, seq![7u8])
    } else if starts_with(rest, seq!['m']) {
        (ChordQuality::Minor, Seq::empty())
    } else if starts_with(rest, seq!['d', 'i', 'm', '7']) {
        (ChordQuality::Diminished, seq![7u8])
    } else if starts_with(rest, seq!['d', 'i', 'm']) {
        (ChordQuality::Diminished, Seq::empty())
    } else if starts_with(rest, seq!['a', 'u', 'g']) {
        (ChordQuality::Augmented, Seq::empty())
    } else if starts_with(rest, seq!['s', 'u', 's']) {
        (ChordQuality::Suspended, Seq::empty())
    } else if starts_with(rest, seq!['7']) {
        (ChordQuality::Dominant, seq![7u8])
    } else {
        (ChordQuality::Major, Seq::empty())
    }
}

/// What a trimmed chord name reads as: root MIDI number (octave 4), quality
/// and extensions; `None` when it is empty or does not begin with a note letter.
pub open spec fn read_chord_name(t: Seq<char>) -> Option<(u8, ChordQuality, Seq<u8>)> {
    if t.len() == 0 || !is_note_letter(char_upper(t[0])) {
        None
    } else {
        let (pc, k) = read_root(t);
        let (q, e) = read_quality(t.subrange(k, t.len() as int));
        Some(((60 + pc) as u8, q, e))
    }
}

/// A trimmed chord name whose root is read: where it begins with a char
/// whose upper case begins with a note letter, that char is ASCII. A name
/// that begins with another char for a note letter (such as the ligature
/// 'ﬀ') is refused.
pub open spec fn root_is_readable(t: Seq<char>) -> bool {
    (t.len() > 0 && is_note_letter(char_upper(t[0]))) ==> (t[0] as u32) < 128
}

/// `r` is what the trimmed name `t` reads as.
pub open spec fn reads_as(r: Option<Chord>, t: Seq<char>) -> bool {
    match read_chord_name(t) {
        None => r is None,
        Some(x) => r matches Some(c) && c.root.midi == x.0 && c.quality == x.1 && c.extensions@
            == x.2,
    }
}

/// A chord name that is refused.
#[derive(Debug, Clone, Copy, PartialEq, Eq, Structural)]
pub enum NameError {
    /// The name begins with a char that is not ASCII but whose upper case
    /// begins with a note letter.
    UnreadableRoot,
}

/// The chars of a string, in order.
fn chars_of(s: &str) -> (v: Vec<char>)
    ensures
        v@ == s@,
{
    let n = s.unicode_len();
    let mut v: Vec<char> = Vec::new();
    let mut i: usize = 0;
    while i < n
        invariant
            n == s@.len(),
            i <= n,
            v@ == s@.subrange(0, i as int),
        decreases n - i,
    {
        v.push(s.get_char(i));
        i = i + 1;
        proof {
            assert(v@ =~= s@.subrange(0, i as int));
        }
    }
    proof {
        assert(s@.subrange(0, n as int) =~= s@);
    }
    v
}

/// The chars of `s` from `start` on begin with `pat`.
fn has_prefix(s: &Vec<char>, start: usize, pat: &str) -> (b: bool)
    requires
        start <= s@.len(),
    ensures
        b == starts_with(s@.subrange(start as int, s@.len() as int), pat@),
{
    let ghost rest = s@.subrange(start as int, s@.len() as int);
    let len = s.len();
    let n = pat.unicode_len();
    if n > len - start {
        return false;
    }
    let mut i: usize = 0;
    while i < n
        invariant
            n == pat@.len(),
            len == s@.len(),
            start + n <= len,
            rest == s@.subrange(start as int, s@.len() as int),
            i <= n,
            forall|k: int| 0 <= k < i ==> rest[k] == pat@[k],
        decreases n - i,
    {
        if s[start + i] != pat.get_char(i) {
            proof {
                assert(rest.subrange(0, n as int)[i as int] != pat@[i as int]);
            }
            return false;
        }
        i = i + 1;
    }
    proof {
        assert(rest.subrange(0, n as int) =~= pat@);
    }
    true
}

impl Chord {
    /// Parse a chord from a name like "Dm7", "G7", "Cmaj7", "Bdim", "F#m7b5".
    /// Surrounding whitespace is ignored; '♯' and '♭' are read as '#' and
    /// 'b'; the root is placed in octave 4.
    pub fn from_name(name: &str) -> (r: Option<Chord>)
        requires
            root_is_readable(trimmed(name@)),
        ensures
            reads_as(r, trimmed(name@)),
    {
        let t = trim_whitespace(name);
        let chars = chars_of(t);
        if chars.len() == 0 {
            return None;
        }
        let upper = to_uppercase_first(chars[0]);
        let pc: u8 = match upper {
            'C' => 0,
            'D' => 2,
            'E' => 4,
            'F' => 5,
            'G' => 7,
            'A' => 9,
            'B' => 11,
            _ => {
                return None;
            },
        };
        let (root_pc, start): (u8, usize) = if chars.len() > 1 && (chars[1] == '#' || chars[1]
            == '\u{266F}') {
            (pc + 1, 2)
        } else if chars.len() > 1 && (chars[1] == 'b' || chars[1] == '\u{266D}') {
            ((pc + 11) % 12, 2)
        } else {
            (pc, 1)
        };
        let root = Pitch { midi: 60 + root_pc };
        proof {
            reveal_strlit("maj7");
            assert("maj7"@ =~= seq!['m', 'a', 'j', '7']);
            reveal_strlit("maj");
            assert("maj"@ =~= seq!['m', 'a', 'j']);
            reveal_strlit("m7b5");
            assert("m7b5"@ =~= seq!['m', '7', 'b', '5']);
            reveal_strlit("\u{f8}7");
            assert("\u{f8}7"@ =~= seq!['\u{f8}', '7']);
            reveal_strlit("m7");
            assert("m7"@ =~= seq!['m', '7']);
            reveal_strlit("min7");
            assert("min7"@ =~= seq!['m', 'i', 'n', '7']);
            reveal_strlit("m");
            assert("m"@ =~= seq!['m']);
            reveal_strlit("dim7");
            assert("dim7"@ =~= seq!['d', 'i', 'm', '7']);
            reveal_strlit("dim");
            assert("dim"@ =~= seq!['d', 'i', 'm']);
            reveal_strlit("aug");
            assert("aug"@ =~= seq!['a', 'u', 'g']);
            reveal_strlit("sus");
            assert("sus"@ =~= seq!['s', 'u', 's']);
            reveal_strlit("7");
            assert("7"@ =~= seq!['7']);
        }
        let (quality, extensions): (ChordQuality, Vec<u8>) = if has_prefix(&chars, start, "maj7") {
            (ChordQuality::Major, vec![7])
        } else if has_prefix(&chars, start, "maj") {
            (ChordQuality::Major, vec![])
        } else if has_prefix(&chars, start, "m7b5") || has_prefix(&chars, start, "\u{f8}7") {
            (ChordQuality::HalfDiminished, vec![7])
        } else if has_prefix(&chars, start, "m7") || has_prefix(&chars, start, "min7") {
            (ChordQuality::Minor, vec![7])
        } else if has_prefix(&chars, start, "m") {
            (ChordQuality::Minor, vec![])
        } else if has_prefix(&chars, start, "dim7") {
            (ChordQuality::Diminished, vec![7])
        } else if has_prefix(&chars, start, "dim") {
            (ChordQuality::Diminished, vec![])
        } else if has_prefix(&chars, start, "aug") {
            (ChordQuality::Augmented, vec![])
        } else if has_prefix(&chars, start, "sus") {
            (ChordQuality::Suspended, vec![])
        } else if has_prefix(&chars, start, "7") {
            (ChordQuality::Dominant, vec![7])
        } else {
            (ChordQuality::Major, vec![])
        };
        proof {
            assert(extensions@ == read_quality(t@.subrange(start as int, t@.len() as int)).1);
        }
        Some(Chord { root, quality, extensions })
    }

    /// Reads a chord name as `from_name` does, after first refusing the names
    /// whose root letter is not ASCII.
    pub fn try_from_name(name: &str) -> (r: Result<Option<Chord>, NameError>)
        ensures
            r is Err <==> !root_is_readable(trimmed(name@)),
            r matches Ok(o) ==> reads_as(o, trimmed(name@)),
    {
        let t = trim_whitespace(name);
        let chars = chars_of(t);
        if chars.len() > 0 {
            let upper = to_uppercase_first(chars[0]);
            let letter = upper == 'C' || upper == 'D' || upper == 'E' || upper == 'F' || upper
                == 'G' || upper == 'A' || upper == 'B';
            if letter && (chars[0] as u32) >= 128 {
                return Err(NameError::UnreadableRoot);
            }
        }
        Ok(Chord::from_name(name))
    }
}

} // verus!
