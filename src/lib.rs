//! A small polyphonic synthesizer core: note lifecycle, envelopes and a
//! tiny music-macro-language front end, all on exact integer arithmetic.
//!
//! Time is counted in sample ticks and amplitudes are exact non-negative
//! rationals; turning those into floating-point audio is left to the caller.
pub mod level;
pub mod envelope;
pub mod engine;
pub mod mml;
