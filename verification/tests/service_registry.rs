use demonify::{
    add_service, build_spawn_command, check_command, check_name, is_active, kill_service,
    list_service, normalize_name, parse_service_file, remove_service, spawn_service,
    write_service_file, AddError, HostProcess, KillOutcome, Registry, RemoveError, SpawnError,
};

fn procs(labels: &[&str]) -> Vec<HostProcess> {
    labels
        .iter()
        .map(|l| HostProcess {
            pid: u32::MAX,
            label: l.as_bytes().to_vec(),
        })
        .collect()
}

fn bytes(s: &str) -> Vec<u8> {
    s.as_bytes().to_vec()
}

#[test]
fn round_trip_preserves_registry() {
    let mut reg = Registry::new();
    let none: Vec<HostProcess> = Vec::new();
    assert!(add_service(&mut reg, bytes("alpha"), bytes("python3 a.py"), &none).is_ok());
    assert!(add_service(&mut reg, bytes("beta-2"), bytes("run --flag value"), &none).is_ok());
    assert!(add_service(&mut reg, bytes("under_score"), bytes("sleep 9"), &none).is_ok());
    let text = write_service_file(&reg);
    let parsed = parse_service_file(&text).expect("serialized registry must parse");
    assert_eq!(parsed.entries.len(), reg.entries.len());
    for (a, b) in reg.entries.iter().zip(parsed.entries.iter()) {
        assert_eq!(a.name, b.name);
        assert_eq!(a.command, b.command);
    }
}

#[test]
fn round_trip_command_containing_delimiter_text() {
    let mut reg = Registry::new();
    let none: Vec<HostProcess> = Vec::new();
    assert!(add_service(&mut reg, bytes("tricky"), bytes("echo a &>> b.log c"), &none).is_ok());
    let text = write_service_file(&reg);
    let parsed = parse_service_file(&text).expect("must parse");
    assert_eq!(parsed.entries.len(), 1);
    assert_eq!(parsed.entries[0].name, bytes("tricky"));
    assert_eq!(parsed.entries[0].command, bytes("echo a &>> b.log c"));
}

#[test]
fn serialize_empty_registry_is_header_only() {
    let reg = Registry::new();
    assert_eq!(write_service_file(&reg), bytes("#!/bin/bash"));
}

#[test]
fn name_normalization_replaces_spaces_and_lowercases() {
    assert_eq!(normalize_name(&bytes("My Service")), bytes("my-service"));
    assert_eq!(normalize_name(&bytes("worker")), bytes("worker"));
}

#[test]
fn sixteen_byte_name_is_rejected() {
    assert!(check_name(&bytes("a23456789012345"))); // 15 bytes: accepted
    assert!(!check_name(&bytes("a234567890123456"))); // 16 bytes: rejected
    assert!(!check_name(&bytes("")));
    assert!(!check_name(&bytes("bad name"))); // space survives only before normalization
    assert!(check_name(&normalize_name(&bytes("bad name"))));
}

#[test]
fn command_validity() {
    assert!(check_command(&bytes("python3 sync.py")));
    assert!(!check_command(&bytes("")));
    assert!(!check_command(&bytes("a\nb")));
}

#[test]
fn mismatched_comment_name_is_format_error() {
    let text = bytes("#!/bin/bash\nbash -c \"exec -a foo run.sh &>> foo.log &\" # bar");
    assert!(parse_service_file(&text).is_err());
}

#[test]
fn mismatched_log_name_is_format_error() {
    let text = bytes("#!/bin/bash\nbash -c \"exec -a foo run.sh &>> baz.log &\" # foo");
    assert!(parse_service_file(&text).is_err());
}

#[test]
fn bad_line_poisons_later_good_lines() {
    let text = bytes(
        "#!/bin/bash\nnot a record line\nbash -c \"exec -a ok run.sh &>> ok.log &\" # ok",
    );
    assert!(parse_service_file(&text).is_err());
}

#[test]
fn empty_command_line_is_format_error() {
    let text = bytes("#!/bin/bash\nbash -c \"exec -a x  &>> x.log &\" # x");
    assert!(parse_service_file(&text).is_err());
}

#[test]
fn blank_lines_are_skipped() {
    let text = bytes("#!/bin/bash\n\nbash -c \"exec -a one sleep 5 &>> one.log &\" # one\n\n");
    let parsed = parse_service_file(&text).expect("must parse");
    assert_eq!(parsed.entries.len(), 1);
    assert_eq!(parsed.entries[0].name, bytes("one"));
    assert_eq!(parsed.entries[0].command, bytes("sleep 5"));
}

#[test]
fn first_nonblank_line_is_header_even_if_record_shaped() {
    let text = bytes("bash -c \"exec -a one sleep 5 &>> one.log &\" # one");
    let parsed = parse_service_file(&text).expect("must parse");
    assert_eq!(parsed.entries.len(), 0);
}

#[test]
fn empty_file_is_empty_registry() {
    let parsed = parse_service_file(&bytes("")).expect("must parse");
    assert_eq!(parsed.entries.len(), 0);
    let parsed = parse_service_file(&bytes("\n\n")).expect("must parse");
    assert_eq!(parsed.entries.len(), 0);
}

#[test]
fn duplicate_names_last_write_wins() {
    let text = bytes(
        "#!/bin/bash\nbash -c \"exec -a d first &>> d.log &\" # d\nbash -c \"exec -a d second &>> d.log &\" # d",
    );
    let parsed = parse_service_file(&text).expect("must parse");
    assert_eq!(parsed.entries.len(), 1);
    assert_eq!(parsed.entries[0].name, bytes("d"));
    assert_eq!(parsed.entries[0].command, bytes("second"));
}

#[test]
fn add_existing_name_is_duplicate_entry() {
    let mut reg = Registry::new();
    let none: Vec<HostProcess> = Vec::new();
    assert!(add_service(&mut reg, bytes("worker"), bytes("run 1"), &none).is_ok());
    let r = add_service(&mut reg, bytes("worker"), bytes("run 2"), &none);
    match r {
        Err(AddError::DuplicateEntry { existing }) => assert_eq!(existing, bytes("run 1")),
        _ => panic!("expected DuplicateEntry"),
    }
    assert_eq!(reg.entries.len(), 1);
    assert_eq!(reg.entries[0].command, bytes("run 1"));
}

#[test]
fn add_live_untracked_name_is_name_collision() {
    let mut reg = Registry::new();
    let live = procs(&["worker"]);
    let r = add_service(&mut reg, bytes("worker"), bytes("run 1"), &live);
    assert!(matches!(r, Err(AddError::NameCollision)));
    assert_eq!(reg.entries.len(), 0);
    // A merely similar live label does not collide.
    let similar = procs(&["workers"]);
    assert!(add_service(&mut reg, bytes("worker"), bytes("run 1"), &similar).is_ok());
}

#[test]
fn is_active_matches_whole_label_only() {
    let snapshot = procs(&["workers", "aworker", "worker1"]);
    assert!(!is_active(&snapshot, &bytes("worker")));
    let snapshot = procs(&["workers", "worker"]);
    assert!(is_active(&snapshot, &bytes("worker")));
}

#[test]
fn end_to_end_scenario() {
    let text = bytes("#!/bin/bash");
    let mut reg = parse_service_file(&text).expect("header-only file parses");
    assert_eq!(reg.entries.len(), 0);
    let none: Vec<HostProcess> = Vec::new();
    assert!(add_service(&mut reg, bytes("sync"), bytes("python3 sync.py"), &none).is_ok());
    assert_eq!(reg.entries.len(), 1);
    assert_eq!(
        write_service_file(&reg),
        bytes("#!/bin/bash\nbash -c \"exec -a sync python3 sync.py &>> sync.log &\" # sync")
    );
    let (rows, active) = list_service(&reg, &none);
    assert_eq!(rows.len(), 1);
    assert_eq!(active, 0);
    assert_eq!(rows[0].name, bytes("sync"));
    assert_eq!(rows[0].command, bytes("python3 sync.py"));
    assert!(!rows[0].active);
    assert!(remove_service(&mut reg, &bytes("sync")).is_ok());
    assert_eq!(reg.entries.len(), 0);
    assert_eq!(write_service_file(&reg), bytes("#!/bin/bash"));
}

#[test]
fn remove_twice_reports_not_found_second_time() {
    let mut reg = Registry::new();
    let none: Vec<HostProcess> = Vec::new();
    assert!(add_service(&mut reg, bytes("sync"), bytes("python3 sync.py"), &none).is_ok());
    assert!(remove_service(&mut reg, &bytes("sync")).is_ok());
    assert_eq!(reg.entries.len(), 0);
    let second = remove_service(&mut reg, &bytes("sync"));
    assert!(matches!(second, Err(RemoveError::NotFound)));
    assert_eq!(reg.entries.len(), 0);
}

#[test]
fn list_counts_active_entries() {
    let mut reg = Registry::new();
    let none: Vec<HostProcess> = Vec::new();
    assert!(add_service(&mut reg, bytes("up"), bytes("run up"), &none).is_ok());
    assert!(add_service(&mut reg, bytes("down"), bytes("run down"), &none).is_ok());
    let snapshot = procs(&["up", "unrelated"]);
    let (rows, active) = list_service(&reg, &snapshot);
    assert_eq!(rows.len(), 2);
    assert_eq!(active, 1);
    assert!(rows[0].active);
    assert!(!rows[1].active);
}

#[test]
fn spawn_builds_exact_command() {
    let mut reg = Registry::new();
    let none: Vec<HostProcess> = Vec::new();
    assert!(add_service(&mut reg, bytes("sync"), bytes("python3 sync.py"), &none).is_ok());
    let r = spawn_service(&reg, &none, &bytes("sync"));
    assert_eq!(
        r.expect("spawn must succeed"),
        bytes("exec -a sync python3 sync.py &>> sync.log &")
    );
}

#[test]
fn spawn_refuses_live_name_and_unknown_name() {
    let mut reg = Registry::new();
    let none: Vec<HostProcess> = Vec::new();
    assert!(add_service(&mut reg, bytes("sync"), bytes("python3 sync.py"), &none).is_ok());
    let live = procs(&["sync"]);
    assert!(matches!(
        spawn_service(&reg, &live, &bytes("sync")),
        Err(SpawnError::AlreadyActive)
    ));
    assert!(matches!(
        spawn_service(&reg, &none, &bytes("other")),
        Err(SpawnError::NotFound)
    ));
}

#[test]
fn build_spawn_command_exact_text() {
    assert_eq!(
        build_spawn_command(&bytes("n"), &bytes("c")),
        bytes("exec -a n c &>> n.log &")
    );
}

#[test]
fn kill_unknown_label_is_not_running() {
    let snapshot = procs(&["something-else"]);
    assert!(matches!(
        kill_service(&snapshot, &bytes("ghost")),
        KillOutcome::NotRunning
    ));
}

#[test]
fn kill_vanished_process_is_kill_error() {
    // The label is present in the snapshot, but no live process has this id,
    // so the host rejects the termination request.
    let snapshot = procs(&["ghost"]);
    assert!(matches!(
        kill_service(&snapshot, &bytes("ghost")),
        KillOutcome::KillError
    ));
}

#[test]
fn host_snapshot_has_no_impossible_label() {
    let snapshot = demonify::host_processes();
    assert!(!is_active(&snapshot, &bytes("no-such-label-zz9")));
    assert!(!demonify::check_service_active(&bytes("no-such-label-zz9")));
}
