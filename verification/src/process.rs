//! Process-identity matching: whether a named service is currently running
//! on the host.
//!
//! The host's process table is read once per query through a trusted wrapper
//! and handed to the verified matcher as a plain snapshot; matching is exact
//! on the process label (the first token of its command line), never on a
//! substring or prefix.

use vstd::prelude::*;

use crate::bytes::bytes_eq;

verus! {

/// A snapshot row of the host process table: a process id and the label the
/// process was started under (the first token of its command line; empty
/// when the host reports no command line).
pub struct HostProcess {
    pub pid: u32,
    pub label: Vec<u8>,
}

/// Some process in the snapshot carries exactly this label.
pub open spec fn proc_active(procs: Seq<HostProcess>, name: Seq<u8>) -> bool {
    exists|i: int| 0 <= i < procs.len() && procs[i].label@ == name
}

/// Exact-match liveness: true when some process in the snapshot has `name`
/// as its whole label. A label that merely contains `name` does not match.
pub fn is_active(procs: &Vec<HostProcess>, name: &Vec<u8>) -> (r: bool)
    ensures
        r == proc_active(procs@, name@),
{
    match find_labeled(procs, name) {
        Some(_) => true,
        None => false,
    }
}

/// The position of the first process whose label is exactly `name`.
pub fn find_labeled(procs: &Vec<HostProcess>, name: &Vec<u8>) -> (r: Option<usize>)
    ensures
        match r {
            Some(i) => i < procs@.len() && procs@[i as int].label@ == name@,
            None => !proc_active(procs@, name@),
        },
{
    let mut i: usize = 0;
    while i < procs.len()
        invariant
            i <= procs@.len(),
            forall|j: int| 0 <= j < i ==> (#[trigger] procs@[j].label@) != name@,
        decreases procs@.len() - i,
    {
        if bytes_eq(&procs[i].label, name) {
            return Some(i);
        }
        i += 1;
    }
    None
}

/// Relies on sysinfo::System::new_all, System::processes and Process::cmd:
/// one row per live process on the host, carrying its process id and the
/// first token of its command line. The snapshot is whatever the host
/// reports at the moment of the call; nothing more can be promised of it.
#[verifier::external_body]
pub fn host_processes() -> Vec<HostProcess> {
    let sys = sysinfo::System::new_all();
    sys.processes()
        .iter()
        .map(|(pid, p)| HostProcess {
            pid: pid.as_u32(),
            label: p
                .cmd()
                .first()
                .map(|s| s.to_string_lossy().into_owned().into_bytes())
                .unwrap_or_default(),
        })
        .collect()
}

/// Relies on sysinfo::System::process and Process::kill: sends the kill
/// signal to the process with the given id and reports whether the host
/// accepted the request; false when no such process exists.
#[verifier::external_body]
pub fn kill_process(pid: u32) -> bool {
    let sys = sysinfo::System::new_all();
    sys.process(sysinfo::Pid::from_u32(pid)).map(|p| p.kill()).unwrap_or(false)
}


/// Queries the host and reports whether a process labeled exactly `name` is
/// live at this moment. The snapshot is taken fresh on every call; nothing
/// is promised of ambient host state, so callers that need to reason about
/// the outcome take a snapshot themselves and use `is_active` on it.
pub fn check_service_active(name: &Vec<u8>) -> bool {
    let procs = host_processes();
    is_active(&procs, name)
}

} // verus!
