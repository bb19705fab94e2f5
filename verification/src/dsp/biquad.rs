//! The shapes a second-order filter can have.

use vstd::prelude::*;

verus! {

#[derive(Clone, Copy, Debug, PartialEq, Eq, Structural)]
pub enum FilterType {
    Lowpass,
    Highpass,
}

} // verus!
