//! Handles of launched processes.

use vstd::prelude::*;
use crate::error::OsError;
use crate::sys;

verus! {

/// A launched process: its identifier and, once it has been waited for, the
/// exit status that the kernel reported.
pub struct Process {
    pid: usize,
    status: Option<usize>,
}

/// What a [`Process`] holds.
pub struct ProcessView {
    pub pid: usize,
    pub status: Option<usize>,
}

impl ProcessView {
    /// The handle after a wait to which the kernel would answer `outcome`.
    /// A status that is already known is kept; a failed wait leaves no status.
    pub open spec fn after(self, outcome: Result<usize, OsError>) -> ProcessView {
        match (self.status, outcome) {
            (None, Ok(status)) => ProcessView { pid: self.pid, status: Some(status) },
            _ => self,
        }
    }

    /// What a wait reports when the kernel would answer `outcome`: the known
    /// status if there is one, else the kernel's answer.
    pub open spec fn reports(self, outcome: Result<usize, OsError>) -> Result<usize, OsError> {
        match self.status {
            Some(status) => Ok(status),
            None => outcome,
        }
    }
}

/// `r` is the kernel's answer to a wait for the process `pid`: its exit
/// status, or the kernel's error.
pub closed spec fn asked(pid: usize, r: Result<usize, OsError>) -> bool {
    call_ensures(sys::waitpid, (pid,), r)
}

impl View for Process {
    type V = ProcessView;

    closed spec fn view(&self) -> ProcessView {
        ProcessView { pid: self.pid, status: self.status }
    }
}

impl Process {
    /// The handle of the process `pid`, not yet waited for.
    pub fn new(pid: usize) -> (p: Process)
        ensures
            p@ == (ProcessView { pid, status: None }),
    {
        Process { pid, status: None }
    }

    /// The process identifier.
    pub fn id(&self) -> (pid: usize)
        ensures
            pid == self@.pid,
    {
        self.pid
    }

    /// The exit status, if a wait has already observed it.
    pub fn status(&self) -> (status: Option<usize>)
        ensures
            status == self@.status,
    {
        self.status
    }

    /// Takes the kernel's answer to a wait for this process. The first status
    /// that arrives is kept for good; later answers are ignored.
    pub fn record(&mut self, outcome: Result<usize, OsError>) -> (r: Result<usize, OsError>)
        ensures
            final(self)@ == old(self)@.after(outcome),
            r == old(self)@.reports(outcome),
    {
        match self.status {
            Some(status) => Ok(status),
            None => {
                if let Ok(status) = outcome {
                    self.status = Some(status);
                }
                outcome
            },
        }
    }

    /// Waits until the process has exited and gives its status. A status that
    /// is already known is returned at once, without asking the kernel again;
    /// else the result is the kernel's answer to a wait for this process.
    pub fn wait(&mut self) -> (r: Result<usize, OsError>)
        ensures
            final(self)@ == old(self)@.after(r),
            r == old(self)@.reports(r),
            old(self)@.status is None ==> asked(old(self)@.pid, r),
    {
        match self.status {
            Some(status) => Ok(status),
            None => {
                let outcome = sys::waitpid(self.pid);
                self.record(outcome)
            },
        }
    }
}

/// The two sides of a duplication: the duplicate itself, and the process that
/// asked for it, which learns the duplicate's identifier.
pub enum Fork {
    /// The calling process is the duplicate.
    Child,
    /// The calling process asked for the duplicate, whose handle this is.
    Parent(Process),
}

impl Fork {
    /// Tells the two sides apart by what the duplication returned: zero in
    /// the duplicate, the duplicate's identifier in the process that asked.
    pub fn from_clone(returned: usize) -> (side: Fork)
        ensures
            returned == 0 ==> side is Child,
            returned != 0 ==> side is Parent && side->Parent_0@ == (ProcessView {
                pid: returned,
                status: None,
            }),
    {
        if returned == 0 {
            Fork::Child
        } else {
            Fork::Parent(Process::new(returned))
        }
    }
}

/// A wait that has succeeded settles the handle: every later wait reports the
/// same status and leaves the handle as it is, whatever the kernel would answer.
pub proof fn wait_repeats(p: ProcessView, first: Result<usize, OsError>, second: Result<usize, OsError>)
    requires
        p.reports(first) is Ok,
    ensures
        p.after(first).reports(second) == p.reports(first),
        p.after(first).after(second) == p.after(first),
{
}

} // verus!
