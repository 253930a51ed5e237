//! A polyphonic synthesizer core, verified.
//!
//! Eight voices, each a sub oscillator with a click, sixteen overtones and a
//! wavetable texture, run through a rack of effects and a soft clip
//! ([`engine`], [`render`], [`fx`]). A voice that is stolen for a new note
//! fades out in a pool of its own ([`pool`]). Sixty-three parameters, two
//! sweeps and a modulation matrix control it all ([`params`], [`block`]).
//!
//! Every value is the bit pattern of a binary32 number. What can be done to
//! such a pattern without rounding (comparing, truncating, converting a whole
//! number) is integer arithmetic, and is verified here ([`word`]). What rounds
//! is done by a function that the caller hands in ([`alu`]).
//!
//! What holds of the engine as a whole is stated in [`laws`], and beside the
//! functions that it is about. Some of it takes arithmetic that is sound in the
//! ways that [`rounding`] lists.

pub use crate::engine::RiotCore;

pub mod alu;
pub mod block;
pub mod cells;
pub mod consts;
pub mod engine;
pub mod fx;
pub mod laws;
pub mod params;
pub mod pool;
pub mod render;
pub mod rng;
pub mod rounding;
pub mod table;
pub mod voice;
pub mod word;
