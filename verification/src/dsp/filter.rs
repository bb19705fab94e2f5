//! How steep a filter falls off: the number of second-order sections in a row.

use vstd::prelude::*;

verus! {

#[derive(Clone, Copy, Debug, PartialEq, Eq, Structural)]
pub enum Rolloff {
    Db12,
    Db24,
    Db48,
    Db96,
}

/// The most sections a filter has.
pub const MAX_STAGES: usize = 4;

impl Rolloff {
    pub open spec fn sections(self) -> int {
        match self {
            Rolloff::Db12 => 1,
            Rolloff::Db24 => 2,
            Rolloff::Db48 => 3,
            Rolloff::Db96 => 4,
        }
    }

    /// The sections a filter of this rolloff runs through, one after the other.
    pub fn stages(self) -> (n: usize)
        ensures
            n == self.sections(),
            1 <= n <= MAX_STAGES,
    {
        match self {
            Rolloff::Db12 => 1,
            Rolloff::Db24 => 2,
            Rolloff::Db48 => 3,
            Rolloff::Db96 => 4,
        }
    }
}

} // verus!
