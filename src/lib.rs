//! Echo, reverb and chorus effects on mono 16-bit audio, in fixed point.
//!
//! A sample is an integer `x` standing for the amplitude `x / 32768`, so a
//! decoded 16-bit PCM sample is already a sample of this library. Wet
//! shares use the same scale: `ONE` (32768) is 1.0. Delay lines and
//! feedback gains are finer, in Q30 (`UNIT`, 2^30, is 1.0). The engines
//! return the dry/wet mix unrounded, in Q45 (`ONE * UNIT` is 1.0); rounding
//! to 16-bit PCM happens once, in `pcm::quantize`.

pub mod fixed;
pub mod delay;
pub mod chorus;
pub mod pcm;
pub mod process;
