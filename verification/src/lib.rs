//! A small registry of named background services, persisted as a generated
//! shell script. The registry file format, the exact-label process matching
//! logic, and the add/remove/list/spawn/kill decision logic are verified.

mod bytes;
mod codec;
mod launcher;
mod names;
mod process;
mod registry;
mod store;

pub use codec::{
    file_lines, lemma_mismatched_names, lemma_round_trip, line_matches, line_of, lines_of,
    lines_text, lit_header, lit_prefix, lit_sep, lit_tail, nonblank, parse_line,
    parse_service_file, parse_spec, raw_line, record_of, records_map, some_record, split_lines,
    views_of, write_service_file, FormatError,
};
pub use launcher::{
    build_spawn_command, kill_service, lit_exec, lit_logtail, spawn_command, spawn_service,
    KillOutcome, SpawnError,
};
pub use names::{
    check_command, check_name, is_word_byte, normalize_byte, normalize_name, valid_command,
    valid_name, word_byte, MAX_NAME_LEN,
};
pub use process::{
    check_service_active, find_labeled, host_processes, is_active, proc_active, HostProcess,
};
pub use registry::{map_of, unique_names, Registry, ServiceEntry};
pub use store::{
    add_service, lemma_remove_idempotent, list_service, num_active, remove_service, AddError,
    RemoveError, ServiceRow,
};
