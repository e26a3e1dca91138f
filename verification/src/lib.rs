pub mod codec;
pub mod engine;
pub mod paths;
pub mod protocol;
pub mod session;

use vstd::prelude::*;

verus! {

/// The kinds of I/O failure that the drivers report back to the engine.
#[derive(Clone, Copy, PartialEq, Eq, Structural, Debug)]
pub enum IoErrorKind {
    NotFound,
    Other,
}

/// Deleting a shadow file that is already gone is not a failure: a missing
/// file is exactly the state the deletion was meant to reach.
pub fn ignore_err_not_found(err: IoErrorKind) -> (r: Result<(), IoErrorKind>)
    ensures
        err == IoErrorKind::NotFound ==> r == Ok::<(), IoErrorKind>(()),
        err != IoErrorKind::NotFound ==> r == Err::<(), IoErrorKind>(err),
{
    if err == IoErrorKind::NotFound {
        Ok(())
    } else {
        Err(err)
    }
}

} // verus!
