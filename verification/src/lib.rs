//! An offline software synthesizer: a tree of composable signal generators is
//! sampled once per output frame at a fixed sample rate, producing a buffer of
//! stereo amplitude frames.
//!
//! All amplitudes and times are fixed-point integers, so every generator's
//! behaviour is stated and proved exactly:
//!
//! - amplitudes are Q16.16 fixed point (`fixed::ONE` is full scale 1.0),
//!   clipped to magnitude `fixed::AMP_MAX`;
//! - time is counted in ticks of the fixed sample rate, one tick per frame;
//! - an oscillator's phase is a `u64` fraction of `fixed::TURN`.
//!
//! Floating-point concerns (WAV encoding, PCM decoding, note frequencies from
//! equal temperament) live outside this crate; the engine consumes and
//! produces plain integers.

pub mod envelope;
pub mod fixed;
pub mod laws;
pub mod melody;
pub mod render;
pub mod signals;
pub mod steps;

pub use fixed::{AMP_MAX, ONE, QUARTER, SAMPLE_RATE, TURN};
