use process_memory::TryIntoProcessHandle;
use vstd::prelude::*;

verus! {

#[verifier::external_type_specification]
#[verifier::external_body]
pub struct ExArchitecture(process_memory::Architecture);

/// Relies on `TryIntoProcessHandle::try_into_process_handle` for a `Pid`:
/// on success the handle carries that pid.
#[verifier::external_body]
fn handle_for(pid: process_memory::Pid) -> (r: Option<process_memory::ProcessHandle>)
    ensures
        r matches Some(h) ==> h.0 == pid,
{
    pid.try_into_process_handle().ok()
}

/// Relies on `process_memory::copy_address`: a successful read of `len`
/// bytes returns exactly `len` bytes; any failure is reported as `None`.
#[verifier::external_body]
fn copy_window(h: &process_memory::ProcessHandle, base: usize, len: usize) -> (r: Option<Vec<u8>>)
    ensures
        r matches Some(b) ==> b@.len() == len,
{
    process_memory::copy_address(base, len, h).ok()
}

/// A handle through which the memory of another process is read.
pub struct RemoteProcess {
    handle: process_memory::ProcessHandle,
}

impl RemoteProcess {
    pub closed spec fn pid(&self) -> process_memory::Pid {
        self.handle.0
    }

    /// Attaches to the process `pid`; `None` when no handle can be had.
    pub fn open(pid: process_memory::Pid) -> (r: Option<RemoteProcess>)
        ensures
            r matches Some(p) ==> p.pid() == pid,
    {
        match handle_for(pid) {
            Some(handle) => Some(RemoteProcess { handle }),
            None => None,
        }
    }

    /// Reads `len` bytes at `base`: all of them, or `None` when the region
    /// cannot be read.
    pub fn read_window(&self, base: usize, len: usize) -> (r: Option<Vec<u8>>)
        ensures
            r matches Some(b) ==> b@.len() == len,
    {
        copy_window(&self.handle, base, len)
    }
}

} // verus!
