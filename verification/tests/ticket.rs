use veil::protocol::ticket::{
    ticket_from_bytes, ticket_to_bytes, AuthKey, ClockBeforeEpoch, Ticket, AUTH_KEY_LEN,
    TICKET_ID_LEN, TICKET_WIRE_LEN,
};

fn make_test_ticket() -> Ticket {
    let mut ticket_id = [0u8; TICKET_ID_LEN];
    ticket_id[0] = 0xAB;
    ticket_id[15] = 0xCD;

    let auth_key = AuthKey::new([0x42u8; AUTH_KEY_LEN]);

    Ticket {
        ticket_id,
        auth_key,
        not_before: 1_000_000,
        not_after: 1_000_000 + 6 * 3600, // 6 hours
        suite_id: 0x01,
    }
}

#[test]
fn ticket_validity_window() {
    let ticket = make_test_ticket();
    assert!(ticket.is_valid_at(1_000_000));
    assert!(ticket.is_valid_at(1_000_000 + 3600));
    assert!(ticket.is_valid_at(1_000_000 + 6 * 3600));
    assert!(!ticket.is_valid_at(999_999));
    assert!(!ticket.is_valid_at(1_000_000 + 6 * 3600 + 1));
}

#[test]
fn ticket_roundtrip_bytes() {
    let original = make_test_ticket();
    let bytes = ticket_to_bytes(&original);
    assert_eq!(bytes.len(), TICKET_WIRE_LEN);

    let restored = ticket_from_bytes(&bytes).expect("deserialisation failed");
    assert_eq!(restored.ticket_id, original.ticket_id);
    assert_eq!(restored.auth_key.0, original.auth_key.0);
    assert_eq!(restored.not_before, original.not_before);
    assert_eq!(restored.not_after, original.not_after);
    assert_eq!(restored.suite_id, original.suite_id);
}

#[test]
fn ticket_from_bytes_wrong_length() {
    assert!(ticket_from_bytes(&[0u8; 64]).is_none());
    assert!(ticket_from_bytes(&[0u8; 66]).is_none());
    assert!(ticket_from_bytes(&[]).is_none());
}

#[test]
fn auth_key_debug_redacted() {
    let key = AuthKey::new([0xFF; 32]);
    let debug = key.debug_text();
    assert!(debug.contains("redacted"));
    assert!(!debug.contains("FF"));
}

#[test]
fn the_wire_format_is_laid_out_as_documented() {
    let bytes = ticket_to_bytes(&make_test_ticket());
    assert_eq!(bytes[0], 0xAB);
    assert_eq!(bytes[15], 0xCD);
    assert_eq!(&bytes[16..48], &[0x42u8; 32][..]);
    assert_eq!(&bytes[48..56], &1_000_000u64.to_le_bytes()[..]);
    assert_eq!(&bytes[56..64], &1_021_600u64.to_le_bytes()[..]);
    assert_eq!(bytes[64], 0x01);
}

#[test]
fn a_key_can_be_wiped_and_its_clone_is_its_own() {
    let mut key = AuthKey::new([0x5A; 32]);
    let copy = key.clone();
    key.zeroize();
    assert_eq!(key.as_bytes(), &[0u8; 32]);
    assert_eq!(copy.as_ref(), &[0x5Au8; 32][..]);
}

#[test]
fn the_current_time_decides_is_valid_now() {
    let mut ticket = make_test_ticket();
    assert_eq!(ticket.is_valid_now(), Ok(false), "it ended in 1970");
    ticket.not_after = u64::MAX;
    assert_eq!(ticket.is_valid_now(), Ok(true));
    ticket.not_before = u64::MAX;
    assert_eq!(ticket.is_valid_now(), Ok(false));
}

#[test]
fn validity_goes_by_what_the_clock_reads() {
    let ticket = make_test_ticket();
    for now in [ticket.not_before, ticket.not_after] {
        assert_eq!(ticket.is_valid_by(Ok(now)), Ok(true));
    }
    assert_eq!(ticket.is_valid_by(Ok(ticket.not_before - 1)), Ok(false));
    assert_eq!(ticket.is_valid_by(Ok(ticket.not_after + 1)), Ok(false));
    assert_eq!(ticket.is_valid_by(Err(ClockBeforeEpoch)), Err(ClockBeforeEpoch));
}
