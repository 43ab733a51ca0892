//! Outcomes of byte I/O and the deadlines that bound it. Times are nanoseconds
//! on the clock of the stream the outcomes belong to.

use vstd::prelude::*;

verus! {

/// Reason why an I/O operation failed.
#[derive(Clone, Copy, Debug, PartialEq, Eq, Structural)]
pub enum ErrorKind {
    /// The operation needs to wait, and the stream does not block.
    WouldBlock,
    /// A signal cut the operation short.
    Interrupted,
    /// The operation's deadline expired.
    TimedOut,
    /// The peer no longer takes bytes.
    BrokenPipe,
    /// The stream was closed.
    NotConnected,
    /// A write accepted nothing.
    WriteZero,
    /// Any other failure.
    Other,
}

/// Refuses work whose absolute deadline has already elapsed.
pub fn check_deadline(now: u64, deadline: u64) -> (result: Result<(), ErrorKind>)
    ensures
        result == (if now >= deadline {
            Err(ErrorKind::TimedOut)
        } else {
            Ok(())
        }),
{
    if now >= deadline {
        Err(ErrorKind::TimedOut)
    } else {
        Ok(())
    }
}

/// Work is refused from its deadline on, and not before.
pub proof fn law_deadline_is_exact(now: u64, deadline: u64, result: Result<(), ErrorKind>)
    requires
        call_ensures(check_deadline, (now, deadline), result),
    ensures
        result is Ok <==> now < deadline,
        result matches Err(kind) ==> kind == ErrorKind::TimedOut,
{
}

} // verus!
