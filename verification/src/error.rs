//! The errors that the trie reports, and the status codes that stand for them
//! where a call can only hand back an integer.

use vstd::prelude::*;

verus! {

/// Why an operation on the trie did not do its work.
#[derive(Clone, Copy, Debug, PartialEq, Eq, Structural)]
pub enum RaxError {
    /// Memory for a new node could not be had; the trie is as it was.
    OutOfMemory,
    /// The key is not in the trie.
    NotFound,
    /// An argument that must be present was missing.
    InvalidArgument,
}

/// The status code of a call that did its work.
pub const STATUS_OK: i32 = 0;

/// The status code of a call that was given no trie or no cursor to work on.
pub const STATUS_NO_HANDLE: i32 = -1;

impl RaxError {
    /// The status code of the error: each error has a negative code of its
    /// own, which is not `STATUS_NO_HANDLE` either.
    pub open spec fn spec_code(self) -> i32 {
        match self {
            RaxError::InvalidArgument => -2i32,
            RaxError::OutOfMemory => -3i32,
            RaxError::NotFound => -4i32,
        }
    }

    /// The status code of the error.
    #[verifier::when_used_as_spec(spec_code)]
    pub fn code(self) -> (c: i32)
        ensures
            c == self.spec_code(),
            c < STATUS_NO_HANDLE,
    {
        match self {
            RaxError::InvalidArgument => -2,
            RaxError::OutOfMemory => -3,
            RaxError::NotFound => -4,
        }
    }
}

/// Room for `additional` more items in `v`, or the error that reports the
/// lack of it. What `v` holds is the same either way.
pub(crate) fn reserve<T>(v: &mut Vec<T>, additional: usize) -> (r: Result<(), RaxError>)
    ensures
        final(v)@ == old(v)@,
        additional == 0 ==> r is Ok,
        r is Err ==> r == Err::<(), RaxError>(RaxError::OutOfMemory),
{
    if additional == 0 {
        // Room for nothing is always there: the allocator is not asked.
        return Ok(());
    }
    reserved(v.try_reserve(additional))
}

/// What an attempt to reserve memory came to: nothing to report where the
/// memory was had, and `OutOfMemory` where it was not.
pub fn reserved(outcome: Result<(), std::collections::TryReserveError>) -> (r: Result<
    (),
    RaxError,
>)
    ensures
        outcome is Ok ==> r is Ok,
        outcome is Err ==> r == Err::<(), RaxError>(RaxError::OutOfMemory),
{
    match outcome {
        Ok(_) => Ok(()),
        Err(_) => Err(RaxError::OutOfMemory),
    }
}

} // verus!
