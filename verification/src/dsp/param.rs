//! Automation of a parameter: the units it has, the rate it is computed at.

use vstd::prelude::*;

pub use crate::dsp::schedule::QUANTUM;

verus! {

/// a-rate: one value per frame; k-rate: one value per quantum.
#[derive(Clone, Copy, Debug, PartialEq, Eq, Structural)]
pub enum Rate {
    A,
    K,
}

/// What a parameter's values are, where that changes how they move.
#[derive(Clone, Copy, Debug, PartialEq, Eq, Structural)]
pub enum Units {
    Number,
    Gain,
    Decibels,
    Frequency,
    Time,
    NormalRange,
    AudioRange,
    Positive,
    Cents,
}

impl Units {
    /// A move to a value is exponential for frequencies and decibels, linear otherwise.
    pub open spec fn moves_exponentially(self) -> bool {
        self == Units::Frequency || self == Units::Decibels
    }

    pub fn exponential(self) -> (r: bool)
        ensures
            r == self.moves_exponentially(),
    {
        self == Units::Frequency || self == Units::Decibels
    }
}

/// The start of a quantum.
pub open spec fn is_quantum_start(frame: int) -> bool {
    frame % (QUANTUM as int) == 0
}

/// The frame a control call at `frame` sees: the next quantum not yet computed.
pub fn context_frame(frame: u64) -> (at: u64)
    requires
        frame <= u64::MAX - (QUANTUM - 1),
    ensures
        frame <= at < frame + QUANTUM,
        is_quantum_start(at as int),
{
    let past: u64 = frame % (QUANTUM as u64);
    if past == 0 {
        frame
    } else {
        let at: u64 = frame + (QUANTUM as u64 - past);
        assert(at as int == QUANTUM * (frame / (QUANTUM as u64) + 1));
        at
    }
}

/// A piece of a block inside one quantum: the quantum's start, the place in it, and how many frames.
#[derive(Clone, Copy, Debug, PartialEq, Eq, Structural)]
pub struct Piece {
    pub quantum: u64,
    pub at: usize,
    pub frames: usize,
}

/// The piece of a block that starts at `frame` with `left` frames to go: up to the quantum's end, or the
/// block's.
pub fn piece(frame: u64, left: usize) -> (p: Piece)
    requires
        left > 0,
    ensures
        is_quantum_start(p.quantum as int),
        p.quantum + p.at == frame,
        0 < p.frames <= left,
        p.at + p.frames <= QUANTUM,
        p.frames == left || p.at + p.frames == QUANTUM,
{
    let past: u64 = frame % (QUANTUM as u64);
    assert(past < 128 && past <= frame) by (nonlinear_arith)
        requires
            past == frame % 128,
    ;
    let quantum: u64 = frame - past;
    let at: usize = past as usize;
    let room: usize = QUANTUM - at;
    assert(quantum as int == QUANTUM * (frame / (QUANTUM as u64)));
    Piece {
        quantum,
        at,
        frames: if room < left {
            room
        } else {
            left
        },
    }
}

} // verus!
