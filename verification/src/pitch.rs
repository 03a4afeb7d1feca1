//! Pitches and intervals: the nodes and edges of pitch space.

use vstd::prelude::*;

verus! {

/// A musical pitch in MIDI space (0-127).
#[derive(Debug, Clone, Copy, PartialEq, Eq, Structural, Hash, PartialOrd, Ord)]
pub struct Pitch {
    pub midi: u8,
}

/// An interval between two pitches in semitones.
#[derive(Debug, Clone, Copy, PartialEq, Eq, Structural, Hash)]
pub struct Interval {
    pub semitones: i8,
}

// ---------------------------------------------------------------------------
// Specification
// ---------------------------------------------------------------------------

/// The value of a MIDI byte read as a signed 8-bit number (two's complement).
pub open spec fn signed_midi(m: u8) -> int {
    if m < 128 {
        m as int
    } else {
        m as int - 256
    }
}

/// Semitone offset of a natural note letter from C; any other char gives 0.
pub open spec fn letter_offset(c: char) -> int {
    if c == 'C' {
        0
    } else if c == 'D' {
        2
    } else if c == 'E' {
        4
    } else if c == 'F' {
        5
    } else if c == 'G' {
        7
    } else if c == 'A' {
        9
    } else if c == 'B' {
        11
    } else {
        0
    }
}

/// Clamps an integer into the MIDI range 0..=127.
pub open spec fn clamp_midi(x: int) -> int {
    if x < 0 {
        0
    } else if x > 127 {
        127
    } else {
        x
    }
}

/// MIDI number of a note: C-1 = 0, C0 = 12, C4 = 60, A4 = 69, clamped to 0..=127.
pub open spec fn note_midi(upper: char, octave: u8, sharp: bool) -> int {
    clamp_midi((octave as int + 1) * 12 + letter_offset(upper) + if sharp { 1int } else { 0int })
}

/// Semitones from `from` up to `to`, both read as signed bytes.
pub open spec fn interval_between(from: u8, to: u8) -> int {
    signed_midi(to) - signed_midi(from)
}

/// The interval from `from` to `to` fits in an `i8`.
pub open spec fn interval_fits(from: u8, to: u8) -> bool {
    -128 <= interval_between(from, to) <= 127
}

/// Transposing `midi` by `semitones` stays within `i8` before clamping.
pub open spec fn transpose_fits(midi: u8, semitones: i8) -> bool {
    -128 <= signed_midi(midi) + semitones <= 127
}

/// MIDI number reached by transposing `midi` by `semitones`, clamped to 0..=127.
pub open spec fn transposed_midi(midi: u8, semitones: i8) -> int {
    clamp_midi(signed_midi(midi) + semitones)
}

/// Size of an interval in semitones, ignoring direction.
pub open spec fn abs_semitones(s: i8) -> int {
    if s < 0 {
        -s
    } else {
        s as int
    }
}

/// Distance between two pitch classes going the short way round the octave.
pub open spec fn octave_reduced_distance(s: i8) -> int {
    let w = abs_semitones(s) % 12;
    if w <= 12 - w {
        w
    } else {
        12 - w
    }
}

/// Interval class (0..=11) is unison, fourth or fifth.
pub open spec fn is_perfect_class(s: i8) -> bool {
    let w = abs_semitones(s) % 12;
    w == 0 || w == 5 || w == 7
}

/// Name of a pitch class (0 = C) with sharps.
pub open spec fn pitch_class_name(pc: int) -> Seq<char> {
    if pc == 0 {
        seq!['C']
    } else if pc == 1 {
        seq!['C', '#']
    } else if pc == 2 {
        seq!['D']
    } else if pc == 3 {
        seq!['D', '#']
    } else if pc == 4 {
        seq!['E']
    } else if pc == 5 {
        seq!['F']
    } else if pc == 6 {
        seq!['F', '#']
    } else if pc == 7 {
        seq!['G']
    } else if pc == 8 {
        seq!['G', '#']
    } else if pc == 9 {
        seq!['A']
    } else if pc == 10 {
        seq!['A', '#']
    } else {
        seq!['B']
    }
}

/// The decimal digit `d` (0..=9) as a char.
pub open spec fn digit_char(d: int) -> char {
    if d == 0 {
        '0'
    } else if d == 1 {
        '1'
    } else if d == 2 {
        '2'
    } else if d == 3 {
        '3'
    } else if d == 4 {
        '4'
    } else if d == 5 {
        '5'
    } else if d == 6 {
        '6'
    } else if d == 7 {
        '7'
    } else if d == 8 {
        '8'
    } else {
        '9'
    }
}

/// Decimal notation of a natural number, without leading zeros.
pub open spec fn decimal(n: nat) -> Seq<char>
    decreases n,
{
    if n < 10 {
        seq![digit_char(n as int)]
    } else {
        decimal(n / 10) + seq![digit_char((n % 10) as int)]
    }
}

/// Decimal notation of an integer, with a leading '-' when negative.
pub open spec fn int_text(i: int) -> Seq<char> {
    if i < 0 {
        seq!['-'] + decimal((-i) as nat)
    } else {
        decimal(i as nat)
    }
}

/// Scientific pitch notation of a MIDI number: pitch-class name, then octave
/// `midi / 12 - 1` (MIDI 0 = "C-1", 60 = "C4", 69 = "A4").
pub open spec fn scientific_name(midi: u8) -> Seq<char> {
    pitch_class_name(midi as int % 12) + int_text(midi as int / 12 - 1)
}

/// Short name of an interval class (0..=11).
pub open spec fn interval_class_name(w: int) -> Seq<char> {
    if w == 0 {
        seq!['P', '1']
    } else if w == 1 {
        seq!['m', '2']
    } else if w == 2 {
        seq!['M', '2']
    } else if w == 3 {
        seq!['m', '3']
    } else if w == 4 {
        seq!['M', '3']
    } else if w == 5 {
        seq!['P', '4']
    } else if w == 6 {
        seq!['T', 'T']
    } else if w == 7 {
        seq!['P', '5']
    } else if w == 8 {
        seq!['m', '6']
    } else if w == 9 {
        seq!['M', '6']
    } else if w == 10 {
        seq!['m', '7']
    } else {
        seq!['M', '7']
    }
}

// ---------------------------------------------------------------------------
// The one call into std that the pitch logic makes
// ---------------------------------------------------------------------------

/// The first char of the Unicode uppercase mapping of a char.
pub uninterp spec fn uppercase_first(c: char) -> char;

/// First char of the uppercase mapping: an ASCII lowercase letter becomes its
/// capital, any other ASCII char stays as it is, and a non-ASCII char maps to
/// `uppercase_first`.
pub open spec fn char_upper(c: char) -> char {
    if 'a' <= c && c <= 'z' {
        ((c as u32) - 32) as char
    } else if (c as u32) < 128 {
        c
    } else {
        uppercase_first(c)
    }
}

/// Calls `char::to_uppercase` and takes the first char it yields.
/// The documentation promises at least one char, so the `unwrap` cannot fail.
/// The contract claims that an ASCII lowercase letter maps to its capital and
/// any other ASCII char to itself (it has no uppercase mapping); for a
/// non-ASCII char it only names the result, which depends on `c` alone.
#[verifier::external_body]
pub(crate) fn to_uppercase_first(c: char) -> (r: char)
    ensures
        'a' <= c && c <= 'z' ==> r == ((c as u32) - 32) as char,
        !('a' <= c && c <= 'z') && (c as u32) < 128 ==> r == c,
        (c as u32) >= 128 ==> r == uppercase_first(c),
{
    c.to_uppercase().next().unwrap()
}

// ---------------------------------------------------------------------------
// Pitch
// ---------------------------------------------------------------------------

impl Pitch {
    /// Create a pitch from note name, octave, and accidental.
    /// Note names: A-G (either case), sharp flag for #; any other letter counts
    /// as C. MIDI: C4 = 60, A4 = 69; the result is clamped to 0..=127.
    pub fn from_note(name: char, octave: u8, sharp: bool) -> (p: Pitch)
        ensures
            p.midi == note_midi(char_upper(name), octave, sharp),
    {
        let upper = to_uppercase_first(name);
        let base: i32 = match upper {
            'C' => 0,
            'D' => 2,
            'E' => 4,
            'F' => 5,
            'G' => 7,
            'A' => 9,
            'B' => 11,
            _ => 0,
        };
        let midi: i32 = ((octave as i32) + 1) * 12 + base + if sharp {
            1
        } else {
            0
        };
        let clamped: i32 = if midi < 0 {
            0
        } else if midi > 127 {
            127
        } else {
            midi
        };
        Pitch { midi: clamped as u8 }
    }

    /// Interval from self to other.
    pub fn interval_to(&self, other: &Pitch) -> (i: Interval)
        requires
            interval_fits(self.midi, other.midi),
        ensures
            i.semitones == interval_between(self.midi, other.midi),
    {
        let from = signed_byte(self.midi);
        let to = signed_byte(other.midi);
        Interval { semitones: (to - from) as i8 }
    }

    /// Transpose by interval; the result is clamped to 0..=127.
    pub fn transpose(&self, interval: Interval) -> (p: Pitch)
        requires
            transpose_fits(self.midi, interval.semitones),
        ensures
            p.midi == transposed_midi(self.midi, interval.semitones),
    {
        let moved: i16 = signed_byte(self.midi) + interval.semitones as i16;
        let clamped: i16 = if moved < 0 {
            0
        } else if moved > 127 {
            127
        } else {
            moved
        };
        Pitch { midi: clamped as u8 }
    }

    /// Pitch class (0-11, where 0 = C).
    pub fn pitch_class(&self) -> (pc: u8)
        ensures
            pc == self.midi % 12,
    {
        self.midi % 12
    }

    /// Note name in scientific pitch notation
    /// (consistent with `from_note`: C4 = MIDI 60, A4 = MIDI 69).
    pub fn name(&self) -> (s: String)
        ensures
            s@ == scientific_name(self.midi),
    {
        let mut s = String::new();
        s.append(pitch_class_text(self.pitch_class()));
        let octave_plus_one: u8 = self.midi / 12;
        if octave_plus_one == 0 {
            proof {
                reveal_strlit("-1");
                assert(int_text(-1) =~= seq!['-', '1']);
            }
            s.append("-1");
        } else {
            let octave: u8 = octave_plus_one - 1;
            if octave >= 10 {
                s.append(digit_text(octave / 10));
                s.append(digit_text(octave % 10));
                proof {
                    assert(decimal(octave as nat) =~= decimal((octave / 10) as nat) + seq![digit_char((octave % 10) as int)]);
                }
            } else {
                s.append(digit_text(octave));
            }
        }
        s
    }
}

/// A MIDI byte read as a signed byte, widened so that arithmetic cannot wrap.
fn signed_byte(m: u8) -> (r: i16)
    ensures
        r == signed_midi(m),
{
    if m < 128 {
        m as i16
    } else {
        m as i16 - 256
    }
}

/// Text of a pitch class.
fn pitch_class_text(pc: u8) -> (s: &'static str)
    requires
        pc < 12,
    ensures
        s@ == pitch_class_name(pc as int),
{
    proof {
        reveal_strlit("C");
        reveal_strlit("C#");
        reveal_strlit("D");
        reveal_strlit("D#");
        reveal_strlit("E");
        reveal_strlit("F");
        reveal_strlit("F#");
        reveal_strlit("G");
        reveal_strlit("G#");
        reveal_strlit("A");
        reveal_strlit("A#");
        reveal_strlit("B");
    }
    match pc {
        0 => "C",
        1 => "C#",
        2 => "D",
        3 => "D#",
        4 => "E",
        5 => "F",
        6 => "F#",
        7 => "G",
        8 => "G#",
        9 => "A",
        10 => "A#",
        _ => "B",
    }
}

/// Text of one decimal digit.
fn digit_text(d: u8) -> (s: &'static str)
    requires
        d < 10,
    ensures
        s@ == seq![digit_char(d as int)],
{
    proof {
        reveal_strlit("0");
        reveal_strlit("1");
        reveal_strlit("2");
        reveal_strlit("3");
        reveal_strlit("4");
        reveal_strlit("5");
        reveal_strlit("6");
        reveal_strlit("7");
        reveal_strlit("8");
        reveal_strlit("9");
    }
    match d {
        0 => "0",
        1 => "1",
        2 => "2",
        3 => "3",
        4 => "4",
        5 => "5",
        6 => "6",
        7 => "7",
        8 => "8",
        _ => "9",
    }
}

// ---------------------------------------------------------------------------
// Interval
// ---------------------------------------------------------------------------

impl Interval {
    /// Size of the interval in semitones, ignoring direction.
    fn magnitude(&self) -> (a: u8)
        ensures
            a == abs_semitones(self.semitones),
    {
        if self.semitones < 0 {
            (-(self.semitones as i16)) as u8
        } else {
            self.semitones as u8
        }
    }

    /// Voice leading distance: semitone movement, ignoring direction.
    /// This is the edge weight in the spectral graph.
    pub fn voice_leading_distance(&self) -> (d: u8)
        ensures
            d == abs_semitones(self.semitones),
    {
        self.magnitude()
    }

    /// Minimal voice leading distance (considers octave equivalence).
    pub fn minimal_distance(&self) -> (d: u8)
        ensures
            d == octave_reduced_distance(self.semitones),
            d <= 6,
    {
        let wrapped = self.magnitude() % 12;
        if wrapped <= 12 - wrapped {
            wrapped
        } else {
            12 - wrapped
        }
    }

    /// Is this a perfect fifth (or its inversion, perfect fourth), or a unison?
    pub fn is_perfect_consonance(&self) -> (b: bool)
        ensures
            b == is_perfect_class(self.semitones),
    {
        let abs = self.magnitude() % 12;
        abs == 0 || abs == 7 || abs == 5
    }

    /// Interval name of the octave-reduced interval class.
    pub fn name(&self) -> (s: &'static str)
        ensures
            s@ == interval_class_name(abs_semitones(self.semitones) % 12),
    {
        proof {
            reveal_strlit("P1");
            reveal_strlit("m2");
            reveal_strlit("M2");
            reveal_strlit("m3");
            reveal_strlit("M3");
            reveal_strlit("P4");
            reveal_strlit("TT");
            reveal_strlit("P5");
            reveal_strlit("m6");
            reveal_strlit("M6");
            reveal_strlit("m7");
            reveal_strlit("M7");
        }
        let abs = self.magnitude() % 12;
        match abs {
            0 => "P1",
            1 => "m2",
            2 => "M2",
            3 => "m3",
            4 => "M3",
            5 => "P4",
            6 => "TT",
            7 => "P5",
            8 => "m6",
            9 => "M6",
            10 => "m7",
            _ => "M7",
        }
    }
}


// ---------------------------------------------------------------------------
// Laws
// ---------------------------------------------------------------------------

/// Transposing a pitch by the interval to another pitch reaches that pitch
/// (within MIDI space 0..=127, where neither step can overflow).
pub proof fn lemma_transpose_by_interval_to(from: Pitch, to: Pitch)
    requires
        from.midi <= 127,
        to.midi <= 127,
    ensures
        interval_fits(from.midi, to.midi),
        transpose_fits(from.midi, interval_between(from.midi, to.midi) as i8),
        transposed_midi(from.midi, interval_between(from.midi, to.midi) as i8) == to.midi,
{
}

/// The interval back is the negated interval forth.
pub proof fn lemma_interval_reverses(from: Pitch, to: Pitch)
    ensures
        interval_between(to.midi, from.midi) == -interval_between(from.midi, to.midi),
{
}

/// An interval and its reverse have the same minimal distance, the same
/// perfect-consonance class and the same name.
pub proof fn lemma_interval_direction_irrelevant(s: i8)
    requires
        s > -128,
    ensures
        octave_reduced_distance(s) == octave_reduced_distance((-s) as i8),
        is_perfect_class(s) == is_perfect_class((-s) as i8),
        interval_class_name(abs_semitones(s) % 12) == interval_class_name(
            abs_semitones((-s) as i8) % 12,
        ),
{
}

/// A natural note letter in upper case.
pub open spec fn is_upper_note_letter(c: char) -> bool {
    c == 'C' || c == 'D' || c == 'E' || c == 'F' || c == 'G' || c == 'A' || c == 'B'
}

/// Naming the pitch of a note (no clamping needed, and no E# or B#) gives
/// back the letter, the sharp sign if any, and the octave: `from_note` and
/// `name` share the octave convention (C4 = 60).
pub proof fn lemma_note_name_roundtrip(letter: char, octave: u8, sharp: bool)
    requires
        is_upper_note_letter(letter),
        !(sharp && (letter == 'E' || letter == 'B')),
        (octave + 1) * 12 + letter_offset(letter) + (if sharp {
            1int
        } else {
            0int
        }) <= 127,
    ensures
        char_upper(letter) == letter,
        scientific_name(note_midi(char_upper(letter), octave, sharp) as u8) == (if sharp {
            seq![letter, '#']
        } else {
            seq![letter]
        }) + int_text(octave as int),
{
    let r = letter_offset(letter) + if sharp {
        1int
    } else {
        0int
    };
    let m = (octave + 1) * 12 + r;
    assert(0 <= r < 12);
    assert(m % 12 == r && m / 12 == octave + 1) by (nonlinear_arith)
        requires
            m == (octave + 1) * 12 + r,
            0 <= r < 12,
            octave >= 0,
    ;
    assert(note_midi(letter, octave, sharp) == m);
    assert((m as u8) as int == m);
}

} // verus!
