//! Spectral music theory: pitches and intervals, chords as the nodes of a
//! graph, voice-leading costs as its edge weights, progressions as the graph
//! itself, and voice leading as one path per voice through the chords.
//!
//! Every quantity that this library computes is an integer (semitones, MIDI
//! numbers, pitch classes, matrix entries); the quantities that are real
//! numbers (frequencies, tensions, eigenvalues) are computed from these by
//! the program around the library.

pub mod pitch;
pub mod chord;
pub mod progression;
pub mod spline_voice_leading;
pub mod fibonacci_harmony;

pub use pitch::{Interval, Pitch};
pub use chord::{Chord, ChordQuality, NameError};
pub use progression::Progression;
pub use spline_voice_leading::{SplineVoiceLeading, VoiceEvent};
pub use fibonacci_harmony::FibonacciHarmony;
