//! The error that the platform reports for a failed system call.

use vstd::prelude::*;

verus! {

/// A platform error, identified by its error number.
#[derive(Clone, Copy, Debug, PartialEq, Eq, Structural)]
pub struct OsError {
    pub errno: i32,
}

} // verus!
