use needre::event::{exec_event, fork_event};
use needre::process::{detection_message, detection_record, DETECTION_NOTICE};
use needre::{ancestry, format_tree, Config, ProcInfo, ProcessTable};
use std::collections::HashMap;

fn info(ppid: u32, comm: &str, path: &str) -> ProcInfo {
    ProcInfo { ppid, uid: 0, comm: comm.to_string(), path: path.to_string() }
}

fn pids(chain: &[(u32, ProcInfo)]) -> Vec<u32> {
    chain.iter().map(|(p, _)| *p).collect()
}

#[test]
fn ancestry_walks_to_root() {
    let mut t = HashMap::new();
    t.insert(1, info(0, "init", "/sbin/init"));
    t.insert(5, info(1, "bash", ""));
    t.insert(9, info(5, "evil", "/tmp/evil"));
    let chain = ancestry(&t, 9);
    assert_eq!(pids(&chain), [9, 5, 1]);
    assert_eq!(chain[1].1.comm, "bash");
    assert_eq!(format_tree(&chain), "pid=9(/tmp/evil) <- pid=5(bash) <- pid=1(/sbin/init)");
}

#[test]
fn ancestry_unknown_parent_is_recorded_by_pid() {
    let mut t = HashMap::new();
    t.insert(9, info(77, "", ""));
    let chain = ancestry(&t, 9);
    assert_eq!(pids(&chain), [9, 77]);
    assert_eq!(format_tree(&chain), "pid=9(?) <- pid=77(?)");
    let alone = ancestry(&HashMap::new(), 3);
    assert_eq!(pids(&alone), [3]);
}

#[test]
fn ancestry_stops_on_cycles() {
    let mut t = HashMap::new();
    t.insert(2, info(3, "a", ""));
    t.insert(3, info(2, "b", ""));
    assert_eq!(pids(&ancestry(&t, 2)), [2, 3]);
    let mut s = HashMap::new();
    s.insert(4, info(4, "self", ""));
    assert_eq!(pids(&ancestry(&s, 4)), [4]);
}

#[test]
fn format_tree_of_empty_chain() {
    assert_eq!(format_tree(&[]), "");
    assert_eq!(format_tree(&[(0, info(0, "", ""))]), "pid=0(?)");
    assert_eq!(format_tree(&[(4294967295, info(0, "c", ""))]), "pid=4294967295(c)");
}

fn padded<const N: usize>(s: &[u8]) -> [u8; N] {
    let mut a = [0u8; N];
    a[..s.len()].copy_from_slice(s);
    a
}

#[test]
fn table_records_fork_exec_exit() {
    let mut t = ProcessTable::new();
    t.record_exec(5, 0, "bash".to_string(), "/bin/bash".to_string());
    t.record_fork(5, 1, 1000, "bash".to_string());
    let p = &t.procs[&5];
    assert_eq!((p.ppid, p.uid), (1, 1000));
    assert_eq!(p.path, "/bin/bash");
    t.record_exec(5, 1000, "ls".to_string(), "/bin/ls".to_string());
    let p = &t.procs[&5];
    assert_eq!(p.ppid, 1);
    assert_eq!(p.comm, "ls");
    t.record_exit(5);
    assert!(t.procs.is_empty());
}

#[test]
fn observe_reports_executions_in_monitored_directories() {
    let config = Config { monitor_dirs: vec!["/tmp".to_string()] };
    let mut t = ProcessTable::new();
    let fork = fork_event(1, 42, 1000, padded(b"bash"));
    assert_eq!(t.observe(&config, &fork), None);
    let safe = exec_event(42, 1000, padded(b"ls"), padded(b"/usr/bin/ls"), 11);
    assert_eq!(t.observe(&config, &safe), None);
    let evil = exec_event(42, 1000, padded(b"evil"), padded(b"/tmp/evil"), 9);
    assert_eq!(
        t.observe(&config, &evil),
        Some("pid=42(/tmp/evil) <- pid=1(?)".to_string())
    );
    assert_eq!(t.procs[&42].ppid, 1);
    let mut exit = fork;
    exit.event_type = needre::EventType::Exit;
    assert_eq!(t.observe(&config, &exit), None);
    assert!(t.procs.is_empty());
}

#[test]
fn detection_lines() {
    assert_eq!(
        detection_message("pid=1(?)"),
        "[DETECT] %1000%: executed suspicious process in monitored directory.; tree: pid=1(?)"
    );
    assert_eq!(
        detection_record("2024-01-02 03:04:05", "pid=1(?)"),
        format!("2024-01-02 03:04:05 {}pid=1(?)", DETECTION_NOTICE)
    );
}
