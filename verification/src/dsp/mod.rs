//! The parts of the sound engine that decide rather than compute: which effect a parameter belongs to,
//! which voice plays a note, where a source sounds in a quantum, which automation event is current, how a
//! long response is cut into stages. What they decide, the renderer computes.

pub mod automation;
pub mod biquad;
pub mod buffer_source;
pub mod convolver;
pub mod filter;
pub mod fx;
pub mod line;
pub mod oscillator;
pub mod param;
pub mod rng;
pub mod schedule;
pub mod synth;
