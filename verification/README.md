# spectral_music

Spectral music theory with machine-checked contracts: chords are the nodes of
a graph, voice-leading costs its edge weights, progressions the graph, and
voice leading one path per voice through the chords.

- `src/` — the library, verified with Verus:
  - `pitch.rs`: MIDI pitches and intervals, note names, transposition;
  - `chord.rs`: chord qualities, pitches, pitch classes, chord-name reading,
    voice-leading cost;
  - `progression.rs`: chain and complete voice-leading graphs, the graph
    Laplacian, the standard progressions;
  - `spline_voice_leading.rs`: the smoothest voice leading (exhaustive search
    for up to four voices, greedy choice beyond), voice events, total cost;
  - `fibonacci_harmony.rs`: progressions at Fibonacci distances around the
    circle of fifths.
- `app/` — the program around it: frequencies, tension and consonance values,
  Laplacian eigenvalues, conservation ratios and the golden ratio, all of
  which are floating-point.
- `tests/` — tests of the library.
