//! The system calls that the library makes. Nothing is proved of them: each
//! function here hands its arguments to the kernel and reports what came back,
//! with the kernel's error number carried over into [`OsError`].

use vstd::prelude::*;
use syscall::flag::WaitFlags;
use crate::error::OsError;

verus! {

/// `syscall::setregid`: asks the kernel to make `rgid` the real and `egid` the
/// effective group of the calling process. Nothing is claimed of the answer.
#[verifier::external_body]
pub(crate) fn setregid(rgid: usize, egid: usize) -> (r: Result<usize, OsError>) {
    syscall::setregid(rgid, egid).map_err(|err| OsError { errno: err.errno })
}

/// `syscall::setreuid`: asks the kernel to make `ruid` the real and `euid` the
/// effective user of the calling process. Nothing is claimed of the answer.
#[verifier::external_body]
pub(crate) fn setreuid(ruid: usize, euid: usize) -> (r: Result<usize, OsError>) {
    syscall::setreuid(ruid, euid).map_err(|err| OsError { errno: err.errno })
}

/// `syscall::chdir`: asks the kernel to make `path` the working directory of
/// the calling process. Its documentation gives `Ok(0)` as the only answer on
/// success, and that is all that is claimed.
#[verifier::external_body]
pub(crate) fn chdir(path: &str) -> (r: Result<usize, OsError>)
    ensures
        r matches Ok(value) ==> value == 0,
{
    syscall::chdir(path).map_err(|err| OsError { errno: err.errno })
}

/// `syscall::mkns`: asks the kernel for a new namespace that holds the schemes
/// whose names lie at the given addresses, each an address and a length in
/// bytes, and gives the namespace's number. Nothing is claimed of the answer.
#[verifier::external_body]
pub(crate) fn mkns(schemes: &Vec<[usize; 2]>) -> (r: Result<usize, OsError>) {
    syscall::mkns(schemes).map_err(|err| OsError { errno: err.errno })
}

/// `syscall::setrens`: asks the kernel to make `rns` the real and `ens` the
/// effective namespace of the calling process. Nothing is claimed of the
/// answer.
#[verifier::external_body]
pub(crate) fn setrens(rns: usize, ens: usize) -> (r: Result<usize, OsError>) {
    syscall::setrens(rns, ens).map_err(|err| OsError { errno: err.errno })
}

/// `syscall::fexec`: asks the kernel to replace the image of the calling
/// process by the binary open at `fd`, with the arguments and the environment
/// whose strings lie at the given addresses, each an address and a length in
/// bytes. Where the kernel does so the call does not come back; nothing is
/// claimed of an answer that does.
#[verifier::external_body]
pub(crate) fn fexec(fd: usize, args: &Vec<[usize; 2]>, vars: &Vec<[usize; 2]>) -> (r: Result<
    usize,
    OsError,
>) {
    syscall::fexec(fd, args, vars).map_err(|err| OsError { errno: err.errno })
}

/// `syscall::waitpid` with no flags: blocks until the process `pid` has changed
/// state and gives the status that the kernel stored, or the kernel's error.
/// Nothing is claimed of either.
#[verifier::external_body]
pub(crate) fn waitpid(pid: usize) -> (r: Result<usize, OsError>) {
    let mut status: usize = 0;
    match syscall::waitpid(pid, &mut status, WaitFlags::empty()) {
        Ok(_) => Ok(status),
        Err(err) => Err(OsError { errno: err.errno }),
    }
}

/// `str::as_ptr`, as a number: the address at which the bytes of `text` lie
/// for as long as `text` is borrowed. Nothing is claimed of it.
#[verifier::external_body]
pub(crate) fn address(text: &str) -> (at: usize) {
    text.as_ptr() as usize
}

} // verus!
