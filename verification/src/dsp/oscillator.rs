//! The built-in wave shapes, and the states of an oscillator.

use vstd::prelude::*;

pub use crate::dsp::schedule::PlaybackState;

verus! {

#[derive(Clone, Copy, Debug, PartialEq, Eq, Structural)]
pub enum OscillatorType {
    Sine,
    Square,
    Sawtooth,
    Triangle,
}

} // verus!
