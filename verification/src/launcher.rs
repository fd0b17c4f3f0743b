//! Starting and stopping service processes: the verified decisions around
//! the host's process actions.
//!
//! Spawning composes the exact shell command that relabels the process and
//! appends its output to the service's log; the host call itself is made by
//! the caller. Killing locates the live process by exact label and asks the
//! host, through a trusted wrapper, to terminate it.

use vstd::prelude::*;

use crate::codec::{append_bytes, lit_sep, lit_sep_vec};
use crate::process::{find_labeled, kill_process, proc_active, HostProcess};
use crate::registry::Registry;

verus! {

/// `exec -a ` — relabels the process before it starts.
pub open spec fn lit_exec() -> Seq<u8> {
    seq![101u8, 120, 101, 99, 32, 45, 97, 32]
}

/// `.log &` — closes the log redirection and backgrounds the process.
pub open spec fn lit_logtail() -> Seq<u8> {
    seq![46u8, 108, 111, 103, 32, 38]
}

/// The shell command that starts service `n` running `c` detached: the
/// process label is forced to `n` and output is appended to `<n>.log`.
pub open spec fn spawn_command(n: Seq<u8>, c: Seq<u8>) -> Seq<u8> {
    lit_exec() + n + seq![32u8] + c + lit_sep() + n + lit_logtail()
}

/// Why a service could not be spawned.
#[derive(Debug)]
pub enum SpawnError {
    /// A process with this label is already live; refusing to double-launch.
    AlreadyActive,
    /// No entry of that name is declared in the registry.
    NotFound,
}

/// What came of a kill request.
pub enum KillOutcome {
    /// The host accepted the termination request.
    Killed,
    /// No live process carries the name as its label.
    NotRunning,
    /// A matching process exists but the host rejected the request.
    KillError,
}

fn lit_exec_vec() -> (r: Vec<u8>)
    ensures
        r@ == lit_exec(),
{
    let v: Vec<u8> = vec![101u8, 120, 101, 99, 32, 45, 97, 32];
    proof {
        assert(v@ =~= lit_exec());
    }
    v
}

fn lit_logtail_vec() -> (r: Vec<u8>)
    ensures
        r@ == lit_logtail(),
{
    let v: Vec<u8> = vec![46u8, 108, 111, 103, 32, 38];
    proof {
        assert(v@ =~= lit_logtail());
    }
    v
}

/// Builds the exact spawn command for a name and command.
pub fn build_spawn_command(name: &Vec<u8>, command: &Vec<u8>) -> (r: Vec<u8>)
    ensures
        r@ == spawn_command(name@, command@),
{
    let mut out: Vec<u8> = lit_exec_vec();
    append_bytes(&mut out, name);
    out.push(32u8);
    append_bytes(&mut out, command);
    append_bytes(&mut out, &lit_sep_vec());
    append_bytes(&mut out, name);
    append_bytes(&mut out, &lit_logtail_vec());
    proof {
        assert(out@ =~= spawn_command(name@, command@));
    }
    out
}

/// Decides a spawn request against the registry and a process snapshot.
/// Refuses to double-launch a live name, reports an undeclared name, and
/// otherwise hands back the exact shell command the caller must run.
pub fn spawn_service(reg: &Registry, procs: &Vec<HostProcess>, name: &Vec<u8>) -> (r: Result<
    Vec<u8>,
    SpawnError,
>)
    requires
        reg.wf(),
    ensures
        match r {
            Ok(cmd) => !proc_active(procs@, name@) && reg@.contains_key(name@) && cmd@
                == spawn_command(name@, reg@[name@]),
            Err(SpawnError::AlreadyActive) => proc_active(procs@, name@),
            Err(SpawnError::NotFound) => !proc_active(procs@, name@) && !reg@.contains_key(
                name@,
            ),
        },
{
    if crate::process::is_active(procs, name) {
        return Err(SpawnError::AlreadyActive);
    }
    match reg.get_command(name) {
        Some(command) => Ok(build_spawn_command(name, &command)),
        None => Err(SpawnError::NotFound),
    }
}

/// Locates the live process whose label is exactly `name` and asks the host
/// to terminate it. Reports `NotRunning` exactly when no process in the
/// snapshot carries the label; whether the host accepted the request is
/// reported as `Killed` or `KillError`.
pub fn kill_service(procs: &Vec<HostProcess>, name: &Vec<u8>) -> (r: KillOutcome)
    ensures
        match r {
            KillOutcome::NotRunning => !proc_active(procs@, name@),
            KillOutcome::Killed => proc_active(procs@, name@),
            KillOutcome::KillError => proc_active(procs@, name@),
        },
{
    match find_labeled(procs, name) {
        None => KillOutcome::NotRunning,
        Some(i) => {
            if kill_process(procs[i].pid) {
                KillOutcome::Killed
            } else {
                KillOutcome::KillError
            }
        },
    }
}

} // verus!
