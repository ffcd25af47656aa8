//! The outcome of ranking a byte against a context's history.

use vstd::prelude::*;

verus! {

/// Which of a context's remembered bytes the next byte equals, if any.
#[derive(Clone, Copy, Debug, PartialEq, Eq, Structural)]
pub enum ByteMatched {
    FIRST,
    SECOND,
    THIRD,
    NONE,
}

} // verus!
