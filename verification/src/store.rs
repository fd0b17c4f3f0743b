//! Registry operations: add, remove and list, with collision detection
//! against live host processes.

use vstd::prelude::*;

use crate::names::{valid_command, valid_name, MAX_NAME_LEN};
use crate::process::{is_active, proc_active, HostProcess};
use crate::registry::{Registry, ServiceEntry};

verus! {

/// Why an entry could not be added.
pub enum AddError {
    /// The name is already declared; carries the existing command so the
    /// caller can report it and decide to remove-then-readd.
    DuplicateEntry { existing: Vec<u8> },
    /// The name is free in the registry, but a live host process already
    /// carries it as its label; a later spawn could not be told apart from
    /// that process.
    NameCollision,
}

/// Why an entry could not be removed.
pub enum RemoveError {
    /// No entry of that name is declared.
    NotFound,
}

/// One line of a listing: a declared service and whether a process with its
/// label is live right now.
pub struct ServiceRow {
    pub name: Vec<u8>,
    pub command: Vec<u8>,
    pub active: bool,
}

/// How many declared services have a live process in the snapshot.
pub open spec fn num_active(s: Seq<ServiceEntry>, procs: Seq<HostProcess>) -> nat
    decreases s.len(),
{
    if s.len() == 0 {
        0
    } else {
        num_active(s.drop_last(), procs) + if proc_active(procs, s.last().name@) {
            1nat
        } else {
            0nat
        }
    }
}

/// Declares `name` to run `command`. Fails with `DuplicateEntry` when the
/// name is already declared, and with `NameCollision` when an untracked live
/// process already carries the name as its label; either failure leaves the
/// registry unchanged.
pub fn add_service(
    reg: &mut Registry,
    name: Vec<u8>,
    command: Vec<u8>,
    procs: &Vec<HostProcess>,
) -> (r: Result<(), AddError>)
    requires
        old(reg).wf(),
        valid_name(name@),
        name@.len() <= MAX_NAME_LEN,
        valid_command(command@),
    ensures
        final(reg).wf(),
        match r {
            Ok(()) => !old(reg)@.contains_key(name@) && !proc_active(procs@, name@)
                && final(reg)@ == old(reg)@.insert(name@, command@),
            Err(AddError::DuplicateEntry { existing }) => old(reg)@.contains_key(name@)
                && existing@ == old(reg)@[name@] && final(reg)@ == old(reg)@,
            Err(AddError::NameCollision) => !old(reg)@.contains_key(name@)
                && proc_active(procs@, name@) && final(reg)@ == old(reg)@,
        },
{
    match reg.get_command(&name) {
        Some(existing) => Err(AddError::DuplicateEntry { existing }),
        None => {
            if is_active(procs, &name) {
                Err(AddError::NameCollision)
            } else {
                reg.insert_entry(name, command);
                Ok(())
            }
        },
    }
}

/// Deletes the entry named `name`; fails with `NotFound` when no such entry
/// is declared, leaving the registry unchanged. Running processes are not
/// affected either way.
pub fn remove_service(reg: &mut Registry, name: &Vec<u8>) -> (r: Result<(), RemoveError>)
    requires
        old(reg).wf(),
    ensures
        final(reg).wf(),
        match r {
            Ok(()) => old(reg)@.contains_key(name@) && final(reg)@ == old(reg)@.remove(name@),
            Err(RemoveError::NotFound) => !old(reg)@.contains_key(name@)
                && final(reg)@ == old(reg)@,
        },
{
    if reg.contains(name) {
        reg.remove_entry(name);
        Ok(())
    } else {
        Err(RemoveError::NotFound)
    }
}

/// A snapshot listing: one row per declared service, in registry order,
/// each annotated with its liveness at the moment of the call, together
/// with the number of active services. The total entry count is the length
/// of the returned vector.
pub fn list_service(reg: &Registry, procs: &Vec<HostProcess>) -> (r: (Vec<ServiceRow>, usize))
    ensures
        r.0@.len() == reg.entries@.len(),
        forall|i: int|
            0 <= i < reg.entries@.len() ==> (#[trigger] r.0@[i]).name@ == reg.entries@[i].name@
                && r.0@[i].command@ == reg.entries@[i].command@ && r.0@[i].active == proc_active(
                procs@,
                reg.entries@[i].name@,
            ),
        r.1 == num_active(reg.entries@, procs@),
{
    let mut rows: Vec<ServiceRow> = Vec::new();
    let mut count: usize = 0;
    let mut i: usize = 0;
    while i < reg.entries.len()
        invariant
            i <= reg.entries@.len(),
            rows@.len() == i,
            count <= i,
            forall|j: int|
                0 <= j < i ==> (#[trigger] rows@[j]).name@ == reg.entries@[j].name@
                    && rows@[j].command@ == reg.entries@[j].command@ && rows@[j].active
                    == proc_active(procs@, reg.entries@[j].name@),
            count == num_active(reg.entries@.subrange(0, i as int), procs@),
        decreases reg.entries@.len() - i,
    {
        let entry = &reg.entries[i];
        let name = crate::bytes::copy_region(&entry.name, 0, entry.name.len());
        let command = crate::bytes::copy_region(&entry.command, 0, entry.command.len());
        let active = is_active(procs, &entry.name);
        rows.push(ServiceRow { name, command, active });
        if active {
            count += 1;
        }
        proof {
            assert(reg.entries@.subrange(0, i + 1).drop_last() =~= reg.entries@.subrange(
                0,
                i as int,
            ));
            assert(reg.entries@.subrange(0, i + 1).last() == reg.entries@[i as int]);
        }
        i += 1;
    }
    proof {
        assert(reg.entries@.subrange(0, reg.entries@.len() as int) =~= reg.entries@);
    }
    (rows, count)
}


/// Removal is idempotent: once a name is deleted from the mapping, it is no
/// longer present, so a second `remove_service` of the same name reports
/// `NotFound` and leaves the registry unchanged.
pub proof fn lemma_remove_idempotent(m: Map<Seq<u8>, Seq<u8>>, name: Seq<u8>)
    ensures
        !m.remove(name).contains_key(name),
{
}

} // verus!
