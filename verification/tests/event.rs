use needre::event::{
    data_loc_offset, exec_event, fork_event, split_pid_tgid, tracepoint_status, uid_from_uid_gid,
    RECORD_SIZE,
};
use needre::{decode_c_string, EventType, ProcessEvent};

#[test]
fn event_codes() {
    assert_eq!(EventType::Exec.code(), 1);
    assert_eq!(EventType::Exit.code(), 2);
    assert_eq!(EventType::Fork.code(), 3);
    for t in [EventType::Exec, EventType::Exit, EventType::Fork] {
        assert_eq!(EventType::from_code(t.code()), Some(t));
    }
    assert_eq!(EventType::from_code(0), None);
    assert_eq!(EventType::from_code(4), None);
}

#[test]
fn packed_helper_results() {
    assert_eq!(split_pid_tgid(0x0000_0005_0000_0007), (7, 5));
    assert_eq!(split_pid_tgid(u64::MAX), (u32::MAX, u32::MAX));
    assert_eq!(uid_from_uid_gid(0x0000_03e8_0000_01f4), 0x1f4);
    assert_eq!(data_loc_offset(0x0010_0024), 0x24);
}

#[test]
fn tracepoint_status_truncates_errors() {
    assert_eq!(tracepoint_status(Ok(0)), 0);
    assert_eq!(tracepoint_status(Err(1)), 1);
    assert_eq!(tracepoint_status(Err(-1)), u32::MAX);
}

fn padded<const N: usize>(s: &[u8]) -> [u8; N] {
    let mut a = [0u8; N];
    a[..s.len()].copy_from_slice(s);
    a
}

#[test]
fn exec_and_fork_records() {
    let e = exec_event(0x0000_0010_0000_0011, 1000, padded(b"bash"), padded(b"/tmp/x"), 7);
    assert_eq!(e.event_type, EventType::Exec);
    assert_eq!((e.pid, e.tgid, e.parent_pid, e.uid, e.filename_len), (0x11, 0x10, 0, 1000, 7));
    assert_eq!(&e.comm[..4], b"bash");
    let f = fork_event(1, -2, 0x0000_0001_0000_0002, padded(b"sh"));
    assert_eq!(f.event_type, EventType::Fork);
    assert_eq!((f.pid, f.tgid, f.parent_pid, f.uid), (u32::MAX - 1, u32::MAX - 1, 1, 2));
    assert!(f.filename.iter().all(|b| *b == 0));
    assert_eq!(f.filename_len, 0);
}

#[test]
fn records_round_trip_both_orders() {
    let e = exec_event(0x0102_0304_0506_0708, 42, padded(b"cat"), padded(b"/bin/cat"), 8);
    for le in [true, false] {
        let bytes = e.to_record(le);
        assert_eq!(bytes.len(), RECORD_SIZE);
        let back = ProcessEvent::from_record(&bytes, le).expect("record");
        assert_eq!(back.event_type, e.event_type);
        assert_eq!((back.pid, back.tgid, back.uid), (e.pid, e.tgid, e.uid));
        assert_eq!(back.comm, e.comm);
        assert_eq!(back.filename, e.filename);
        assert_eq!(back.filename_len, e.filename_len);
    }
    let le = e.to_record(true);
    assert_eq!(&le[..8], &[1, 0, 0, 0, 0x08, 0x07, 0x06, 0x05]);
    let be = e.to_record(false);
    assert_eq!(&be[..8], &[0, 0, 0, 1, 0x05, 0x06, 0x07, 0x08]);
}

#[test]
fn short_or_unknown_records_are_refused() {
    assert!(ProcessEvent::from_record(&[0u8; RECORD_SIZE - 1], true).is_none());
    let mut bytes = vec![0u8; RECORD_SIZE];
    assert!(ProcessEvent::from_record(&bytes, true).is_none());
    bytes[0] = 9;
    assert!(ProcessEvent::from_record(&bytes, true).is_none());
    bytes[0] = 2;
    assert_eq!(ProcessEvent::from_record(&bytes, true).unwrap().event_type, EventType::Exit);
}

#[test]
fn c_strings_stop_at_nul() {
    assert_eq!(decode_c_string(b"bash\0junk"), "bash");
    assert_eq!(decode_c_string(b"\0"), "");
    assert_eq!(decode_c_string(b"no terminator"), "");
    assert_eq!(decode_c_string(b"caf\xc3\xa9\0"), "caf\u{e9}");
    assert_eq!(decode_c_string(b"a\xffb\0"), "a\u{fffd}b");
}
