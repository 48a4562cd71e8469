//! What can go wrong.

use vstd::prelude::*;

verus! {

/// The reasons for which the library turns a request down.
#[derive(Clone, Copy, Debug, PartialEq, Eq, Structural)]
pub enum FSRSError {
    /// There is nothing to evaluate.
    NotEnoughData,
    /// The caller asked to stop.
    Interrupted,
    /// The parameters have the wrong number or are not all finite.
    InvalidParameters,
    /// Training ended in a parameter that is infinite.
    InvalidInput,
}

} // verus!
