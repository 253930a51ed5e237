# Overtone Riot

A polyphonic synthesizer core for an audio worklet, verified with Verus.

Eight voices (a sub oscillator with a click, sixteen overtones, a wavetable
texture), a fade pool for stolen voices, two sweeps with a modulation matrix,
and an effect rack: distortion, phaser, chorus, tremolo, delay, reverb.

## Layout

- `src/` is the core, all of it verified. Values are the bit patterns of 32-bit
  floats. `word` holds what can be done to them without rounding; what rounds
  (`+`, `*`, `sin`, ...) is done by a function that the caller hands in as an
  `Alu`. The contracts say what every operation computes for any reading of
  those functions, and what it leaves intact whatever they return. `rounding`
  says what sound arithmetic is, and `laws` states what holds of the engine as
  a whole, some of it for sound arithmetic only.
- `app/` is the WebAssembly module around the core. It hands in the machine's
  floating point, and lets the host write settings and wavetable frames
  straight into the engine's memory.
- `tests/` runs the core with the machine's floating point and checks it
  against formulas written out with floats.

## Using the module

Build with `wasm-pack build --target web --release` and instantiate the module
inside the audio worklet: fetch the bytes on the main thread and hand them over
with the processor options. Sharing the settings through a `SharedArrayBuffer`
takes the response headers `Cross-Origin-Opener-Policy: same-origin` and
`Cross-Origin-Embedder-Policy: require-corp`.
