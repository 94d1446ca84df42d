use base64::Engine;
use std::time::{SystemTime, UNIX_EPOCH};
use veil::protocol::auth::AuthRecord;
use veil::protocol::ticket::{ticket_to_bytes, AuthKey, Ticket, AUTH_KEY_LEN, TICKET_ID_LEN};
use veil::relay::tickets::{compute_authcode, LoadError, TicketStore};

fn unix_secs() -> u64 {
    SystemTime::now()
        .duration_since(UNIX_EPOCH)
        .expect("system clock before Unix epoch")
        .as_secs()
}

fn make_test_ticket() -> Ticket {
    let now = unix_secs();

    Ticket {
        ticket_id: [0xDE; TICKET_ID_LEN],
        auth_key: AuthKey::new([0xAD; AUTH_KEY_LEN]),
        not_before: now - 3600,
        not_after: now + 6 * 3600,
        suite_id: 0x01,
    }
}

fn fake_exporter() -> [u8; 32] {
    let mut exp = [0u8; 32];
    exp[0] = 0xCA;
    exp
}

fn base64_of(ticket: &Ticket) -> String {
    base64::engine::general_purpose::STANDARD.encode(ticket_to_bytes(ticket))
}

#[test]
fn validate_success() {
    let mut store = TicketStore::new();
    let ticket = make_test_ticket();
    store.insert(ticket.clone());

    let exporter = fake_exporter();
    let authcode = compute_authcode(&ticket, &exporter);

    let result = store.validate(&ticket.ticket_id, &authcode, &exporter).unwrap();
    assert!(result.is_some());
}

#[test]
fn validate_wrong_exporter() {
    let mut store = TicketStore::new();
    let ticket = make_test_ticket();
    store.insert(ticket.clone());

    let exporter = fake_exporter();
    let mut exporter2 = exporter;
    exporter2[0] ^= 0x01; // different TLS session

    let authcode = compute_authcode(&ticket, &exporter);

    // Authcode was computed with exporter1, but we validate with exporter2.
    let result = store.validate(&ticket.ticket_id, &authcode, &exporter2).unwrap();
    assert!(result.is_none()); // replay-proof!
}

#[test]
fn validate_unknown_ticket() {
    let store = TicketStore::new();
    let unknown_id = [0xFF; 16];
    let authcode = [0x00; 32];
    let exporter = fake_exporter();

    let result = store.validate(&unknown_id, &authcode, &exporter).unwrap();
    assert!(result.is_none());
}

#[test]
fn validate_tampered_authcode() {
    let mut store = TicketStore::new();
    let ticket = make_test_ticket();
    store.insert(ticket.clone());

    let exporter = fake_exporter();
    let mut authcode = compute_authcode(&ticket, &exporter);
    authcode[0] ^= 0x01; // single-bit flip

    let result = store.validate(&ticket.ticket_id, &authcode, &exporter).unwrap();
    assert!(result.is_none());
}

#[test]
fn validate_expired_ticket() {
    let mut store = TicketStore::new();
    let mut ticket = make_test_ticket();
    // Ticket expired 1 second ago.
    let now = unix_secs();
    ticket.not_before = now - 7200;
    ticket.not_after = now - 1;
    store.insert(ticket.clone());

    let exporter = fake_exporter();
    let authcode = compute_authcode(&ticket, &exporter);

    let result = store.validate(&ticket.ticket_id, &authcode, &exporter).unwrap();
    assert!(result.is_none());
}

#[test]
fn a_ticket_is_accepted_from_its_first_to_its_last_second() {
    let mut store = TicketStore::default();
    let mut ticket = make_test_ticket();
    ticket.not_before = 100;
    ticket.not_after = 200;
    let exporter = fake_exporter();
    let code = compute_authcode(&ticket, &exporter);
    store.insert(ticket.clone());
    for (now, expected) in [(99, false), (100, true), (200, true), (201, false)] {
        let found = store.validate_at(&ticket.ticket_id, &code, &exporter, now);
        assert_eq!(found.is_some(), expected, "at {}", now);
    }
}

#[test]
fn the_store_and_the_record_compute_the_same_code() {
    let ticket = make_test_ticket();
    let exporter = fake_exporter();
    let record = AuthRecord::from_ticket(&ticket, &exporter);
    assert_eq!(record.authcode, compute_authcode(&ticket, &exporter));
}

#[test]
fn tickets_are_told_apart_by_their_identifier() {
    let mut store = TicketStore::new();
    assert_eq!(store.len(), 0);
    let mut ticket = make_test_ticket();
    store.insert(ticket.clone());
    store.insert(ticket.clone());
    assert_eq!(store.len(), 1, "the same ticket twice is one");
    ticket.ticket_id[15] ^= 0x10;
    store.insert(ticket);
    assert_eq!(store.len(), 2);
}

#[test]
fn tickets_load_from_a_json_list() {
    let mut a = make_test_ticket();
    a.not_before = 0;
    let mut b = a.clone();
    b.ticket_id = [0x11; 16];
    let short = base64::engine::general_purpose::STANDARD.encode([1u8; 10]);
    let text = format!("[\"{}\", \"{}\", \"{}\"]", base64_of(&a), short, base64_of(&b));

    let mut store = TicketStore::new();
    assert_eq!(store.load_from_json(&text).unwrap(), 2, "a blob of another length is passed over");
    assert_eq!(store.len(), 2);

    let exporter = fake_exporter();
    let code = compute_authcode(&b, &exporter);
    let found = store.validate_at(&b.ticket_id, &code, &exporter, 5).unwrap();
    assert_eq!(ticket_to_bytes(&found), ticket_to_bytes(&b));
}

#[test]
fn a_text_that_is_no_list_loads_nothing() {
    let mut store = TicketStore::new();
    assert!(matches!(store.load_from_json("{}"), Err(LoadError::Json(_))));
    assert!(matches!(store.load_from_json("[1]"), Err(LoadError::Json(_))));
    assert_eq!(store.load_from_json("[]").unwrap(), 0);
    assert_eq!(store.len(), 0);
}

#[test]
fn what_comes_before_a_bad_blob_stays_loaded() {
    let ticket = make_test_ticket();
    let text = format!("[\"{}\", \"no base64!\"]", base64_of(&ticket));
    let mut store = TicketStore::new();
    let expected = base64::engine::general_purpose::STANDARD.decode("no base64!").unwrap_err();
    match store.load_from_json(&text) {
        Err(LoadError::Base64(e)) => assert_eq!(e, expected.to_string()),
        _ => panic!("expected a base64 error"),
    }
    assert_eq!(store.len(), 1);
}

#[test]
fn a_raw_blob_counts_if_it_is_a_ticket() {
    let ticket = make_test_ticket();
    let mut store = TicketStore::new();
    assert!(!store.insert_blob(&[0u8; 64]));
    assert!(store.insert_blob(&ticket_to_bytes(&ticket)));
    assert_eq!(store.len(), 1);
}
