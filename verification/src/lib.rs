//! Fixed-point core of a clip-and-gate audio effect.
//!
//! The signal chain is: scale a sample by a distortion multiplier, hard-clip
//! the result to one full-scale unit, then attenuate it by a smoothed gate
//! gain that opens or closes depending on how the loudness (RMS) of the
//! current block compares to a threshold.
//!
//! Amplitudes are Q16.16 fixed-point numbers held in `i64`: the value `ONE`
//! (65536) stands for an amplitude of 1.0. A host adapter converts to and
//! from the host's floating-point sample format at the boundary; everything
//! in this crate is integer arithmetic with proved contracts.

pub mod dsp;
pub mod fixed;
