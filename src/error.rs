//! Why a binary message could not be read.
use vstd::prelude::*;

verus! {

#[derive(Debug, Clone, Copy, PartialEq, Eq, Structural)]
pub enum Error {
    /// The input ends before the message does.
    Incomplete,
    /// The header's lengths contradict each other: the extras and the key
    /// are longer than the whole body.
    Malformed,
}

} // verus!
