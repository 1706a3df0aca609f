//! What to make of the results of `posix_spawn` and `waitpid`.

use vstd::prelude::*;

verus! {

/// What follows a call of `waitpid`.
#[derive(Clone, Copy, Debug, PartialEq, Eq, Structural)]
pub enum Reap {
    /// The child is reaped.
    Done,
    /// The call was interrupted and is to be made again.
    Again,
    /// The call failed.
    Failed,
}

/// What follows a call of `waitpid` for the child `pid` that returned `waited`
/// and left the error number `errno`, if any. `eintr` is the error number that
/// the system gives to an interrupted call.
pub fn reap_step(pid: i32, waited: i32, errno: Option<i32>, eintr: i32) -> (step: Reap)
    ensures
        step == (if waited == pid {
            Reap::Done
        } else if errno == Some(eintr) {
            Reap::Again
        } else {
            Reap::Failed
        }),
{
    if waited == pid {
        return Reap::Done;
    }
    match errno {
        Some(code) => if code == eintr {
            Reap::Again
        } else {
            Reap::Failed
        },
        None => Reap::Failed,
    }
}

/// The error number of a call of `posix_spawn` that returned `rc`, if it
/// failed.
pub fn spawn_failure(rc: i32) -> (code: Option<i32>)
    ensures
        code == (if rc == 0 {
            None::<i32>
        } else {
            Some(rc)
        }),
{
    if rc == 0 {
        None
    } else {
        Some(rc)
    }
}

} // verus!
