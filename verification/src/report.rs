//! Deciding how a failed run ends.

use vstd::prelude::*;

verus! {

/// One error of a source chain, as far as the exit status is concerned.
#[derive(Clone, Copy, Debug, PartialEq, Eq, Structural)]
pub enum ErrorCause {
    /// An I/O error raised by writing to a pipe whose reader has gone.
    BrokenPipe,
    /// Any other I/O error.
    OtherIo,
    /// An error that is not an I/O error.
    NotIo,
}

/// True when some error in `chain` (an error followed by its sources) is a
/// broken pipe: a downstream reader that closed early, which is no failure.
pub fn is_broken_pipe(chain: &[ErrorCause]) -> (r: bool)
    ensures
        r == exists|i: int| 0 <= i < chain@.len() && chain@[i] == ErrorCause::BrokenPipe,
{
    let mut i: usize = 0;
    while i < chain.len()
        invariant
            i <= chain@.len(),
            forall|j: int| 0 <= j < i ==> chain@[j] != ErrorCause::BrokenPipe,
        decreases chain@.len() - i,
    {
        if chain[i] == ErrorCause::BrokenPipe {
            return true;
        }
        i = i + 1;
    }
    false
}

} // verus!
