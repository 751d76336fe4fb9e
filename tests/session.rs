use scrop::session::{
    cap_eff_field, classify_ebpf_error, missing_capabilities, parse_command, parse_hex_u64,
    AttachTable,
    CaptureSession, Command,
};
use scrop::types::CaptureError;

#[test]
fn classify_ebpf_error_maps_messages() {
    match classify_ebpf_error("Interface eth9 not found") {
        CaptureError::InterfaceNotFound(m) => assert_eq!(m, "Interface eth9 not found"),
        other => panic!("unexpected {:?}", other),
    }
    match classify_ebpf_error("Interface eth0 is not attached") {
        CaptureError::InvalidState(m) => assert_eq!(m, "Interface eth0 is not attached"),
        other => panic!("unexpected {:?}", other),
    }
    match classify_ebpf_error("Failed to attach XDP to eth0: busy") {
        CaptureError::Other(m) => assert_eq!(m, "Failed to attach XDP to eth0: busy"),
        other => panic!("unexpected {:?}", other),
    }
}

#[test]
fn attach_table_is_idempotent_and_detach_fails_when_absent() {
    let mut table = AttachTable::new();
    assert!(!table.contains("eth0"));
    table.insert("eth0", 7, 2);
    assert!(table.contains("eth0"));
    assert_eq!(table.len(), 1);
    assert_eq!(table.remove("eth0"), Ok((7, 2)));
    assert!(!table.contains("eth0"));
    assert_eq!(
        table.remove("eth0"),
        Err("Interface eth0 is not attached".to_string())
    );
}

#[test]
fn attach_table_keeps_other_entries() {
    let mut table = AttachTable::new();
    table.insert("eth0", 1, 2);
    table.insert("lo", 3, 1);
    assert_eq!(table.remove("eth0"), Ok((1, 2)));
    assert!(table.contains("lo"));
    assert_eq!(table.remove("lo"), Ok((3, 1)));
    assert_eq!(table.len(), 0);
}

#[test]
fn session_start_stop_reset() {
    let mut s = CaptureSession::new();
    assert!(!s.is_running());
    assert!(matches!(s.check_running(), Err(CaptureError::InvalidState(_))));
    assert!(s.start("abc123".to_string()));
    assert!(!s.start("zzzzzz".to_string()));
    assert_eq!(s.session_id, "abc123");
    assert!(s.check_running().is_ok());
    assert_eq!(s.take_counter(), 0);
    assert_eq!(s.take_counter(), 1);
    match s.reset() {
        Err(CaptureError::InvalidState(m)) => assert_eq!(m, "Capture is running"),
        other => panic!("unexpected {:?}", other),
    }
    s.stop();
    assert!(!s.is_running());
    assert_eq!(s.next_counter, 2);
    assert!(s.reset().is_ok());
    assert_eq!(s.next_counter, 0);
    assert_eq!(s.session_id, "");
    assert_eq!(s.stats.total_packets, 0);
}

#[test]
fn restart_without_reset_keeps_counter_and_rotates_session() {
    let mut s = CaptureSession::new();
    s.start("first1".to_string());
    s.take_counter();
    s.stop();
    s.start("second".to_string());
    assert_eq!(s.session_id, "second");
    assert_eq!(s.take_counter(), 1);
}

#[test]
fn hex_masks_parse() {
    assert_eq!(parse_hex_u64("000001ffffffffff"), Some(0x1ff_ffff_ffff));
    assert_eq!(parse_hex_u64("A0"), Some(160));
    assert_eq!(parse_hex_u64("ffffffffffffffff"), Some(u64::MAX));
    assert_eq!(parse_hex_u64("10000000000000000"), None);
    assert_eq!(parse_hex_u64(""), None);
    assert_eq!(parse_hex_u64("12g"), None);
}

#[test]
fn capability_mask_decides_missing_capabilities() {
    assert!(missing_capabilities(0x80_0000_1000).is_empty());
    assert_eq!(
        missing_capabilities(0),
        vec!["CAP_BPF".to_string(), "CAP_NET_ADMIN".to_string()]
    );
    assert_eq!(missing_capabilities(0x1000), vec!["CAP_BPF".to_string()]);
}

#[test]
fn commands_parse() {
    assert_eq!(parse_command("attach eth0"), Some(Command::Attach("eth0".to_string())));
    assert_eq!(parse_command("detach lo"), Some(Command::Detach("lo".to_string())));
    assert_eq!(parse_command("attach "), None);
    assert_eq!(parse_command("start"), None);
}

#[test]
fn attach_plan_follows_table_and_host() {
    let mut table = AttachTable::new();
    assert_eq!(table.plan_attach("eth0", Some(2)), Ok(Some(2)));
    assert_eq!(
        table.plan_attach("eth9", None),
        Err("Interface eth9 not found".to_string())
    );
    table.insert("eth0", 0, 2);
    assert_eq!(table.plan_attach("eth0", Some(2)), Ok(None));
    assert_eq!(table.plan_attach("eth0", None), Ok(None));
}

#[test]
fn short_records_use_no_counter() {
    let mut s = CaptureSession::new();
    let mut record = vec![0u8; 40];
    record[20..24].copy_from_slice(&2u32.to_le_bytes());
    assert!(s.accept_record(&record[..39]).is_none());
    assert_eq!(s.next_counter, 0);
    let (event, counter) = s.accept_record(&record).unwrap();
    assert_eq!(counter, 0);
    assert_eq!(event.action, 2);
    let (_, counter) = s.accept_record(&record).unwrap();
    assert_eq!(counter, 1);
    assert_eq!(s.next_counter, 2);
}

#[test]
fn cap_eff_line_parses() {
    assert_eq!(cap_eff_field("CapEff:\t000001ffffffffff"), Some(0x1ff_ffff_ffff));
    assert_eq!(cap_eff_field("CapEff:  a0 "), Some(160));
    assert_eq!(cap_eff_field("CapEff:"), None);
    assert_eq!(cap_eff_field("CapPrm:\t0000000000000000"), None);
}
