use veil::protocol::auth::{
    build_auth_message, constant_time_verify, AuthRecord, AUTHCODE_LEN, AUTH_PAYLOAD_LEN,
    EXPORTER_LABEL, EXPORTER_LEN,
};
use veil::protocol::frame::FRAME_TYPE_AUTH;
use veil::protocol::ticket::{AuthKey, Ticket, AUTH_KEY_LEN, TICKET_ID_LEN};
use veil::protocol::varint::encode_varint;

/// Create a test ticket with known values.
fn make_test_ticket() -> Ticket {
    let mut ticket_id = [0u8; TICKET_ID_LEN];
    ticket_id[0] = 0xDE;
    ticket_id[1] = 0xAD;

    let mut auth_key = [0u8; AUTH_KEY_LEN];
    auth_key[0] = 0xBE;
    auth_key[1] = 0xEF;

    Ticket {
        ticket_id,
        auth_key: AuthKey::new(auth_key),
        not_before: 1_000_000,
        not_after: 1_000_000 + 6 * 3600,
        suite_id: 0x01,
    }
}

/// Create a fake 32-byte TLS exporter (deterministic for testing).
fn make_test_exporter() -> [u8; 32] {
    let mut exp = [0u8; 32];
    exp[0] = 0xCA;
    exp[1] = 0xFE;
    exp
}

#[test]
fn auth_record_from_ticket() {
    let ticket = make_test_ticket();
    let exporter = make_test_exporter();
    let auth = AuthRecord::from_ticket(&ticket, &exporter);

    // Deterministic: same inputs produce same output.
    let auth2 = AuthRecord::from_ticket(&ticket, &exporter);
    assert_eq!(auth.ticket_id, auth2.ticket_id);
    assert_eq!(auth.authcode, auth2.authcode);
}

#[test]
fn auth_record_verify_success() {
    let ticket = make_test_ticket();
    let exporter = make_test_exporter();
    let auth = AuthRecord::from_ticket(&ticket, &exporter);

    assert!(auth.verify(&ticket, &exporter));
}

#[test]
fn auth_record_verify_wrong_exporter() {
    let ticket = make_test_ticket();
    let exporter = make_test_exporter();
    let auth = AuthRecord::from_ticket(&ticket, &exporter);

    // Different exporter, different authcode: verification fails.
    let mut exporter2 = exporter;
    exporter2[0] ^= 0x01;

    assert!(!auth.verify(&ticket, &exporter2));
}

#[test]
fn auth_record_replay_proof() {
    // Same ticket, two different "TLS sessions" (different exporters).
    let ticket = make_test_ticket();
    let exporter1 = make_test_exporter();
    let mut exporter2 = make_test_exporter();
    exporter2[31] = 0xFF; // different session

    let auth1 = AuthRecord::from_ticket(&ticket, &exporter1);
    let auth2 = AuthRecord::from_ticket(&ticket, &exporter2);

    // Authcodes must differ (replay protection).
    assert_ne!(auth1.authcode, auth2.authcode);

    // auth1 must NOT verify with exporter2 (and vice versa).
    assert!(!auth1.verify(&ticket, &exporter2));
    assert!(!auth2.verify(&ticket, &exporter1));
}

#[test]
fn auth_record_bit_flip_fails() {
    let ticket = make_test_ticket();
    let exporter = make_test_exporter();
    let mut auth = AuthRecord::from_ticket(&ticket, &exporter);

    // Flip one bit in the authcode.
    auth.authcode[0] ^= 0x01;

    assert!(!auth.verify(&ticket, &exporter));
}

#[test]
fn auth_record_encode_decode_roundtrip() {
    let ticket = make_test_ticket();
    let exporter = make_test_exporter();
    let auth = AuthRecord::from_ticket(&ticket, &exporter);

    let encoded = auth.encode();
    let mut buf: &[u8] = &encoded;
    let decoded = AuthRecord::decode(&mut buf).expect("decode failed");

    assert_eq!(decoded.ticket_id, auth.ticket_id);
    assert_eq!(decoded.authcode, auth.authcode);
    assert!(buf.is_empty());
}

#[test]
fn auth_record_decode_wrong_type() {
    // A frame of another type should not decode as AUTH.
    let mut buf = vec![FRAME_TYPE_AUTH + 1];
    encode_varint(AUTH_PAYLOAD_LEN as u64, &mut buf);
    buf.extend(vec![0u8; AUTH_PAYLOAD_LEN]);

    let mut slice = buf.as_slice();
    assert!(AuthRecord::decode(&mut slice).is_none());
}

#[test]
fn auth_record_decode_truncated() {
    let ticket = make_test_ticket();
    let exporter = make_test_exporter();
    let auth = AuthRecord::from_ticket(&ticket, &exporter);

    let encoded = auth.encode();
    // Truncate to half the bytes.
    let truncated = &encoded[..encoded.len() / 2];

    assert!(AuthRecord::decode_slice(truncated).is_none());
}

#[test]
fn constant_time_verify_correct() {
    let a = [0x42u8; AUTHCODE_LEN];
    let b = [0x42u8; AUTHCODE_LEN];
    assert!(constant_time_verify(&a, &b));
}

#[test]
fn constant_time_verify_different() {
    let a = [0x42u8; AUTHCODE_LEN];
    let mut b = [0x42u8; AUTHCODE_LEN];
    b[0] = 0x43;
    assert!(!constant_time_verify(&a, &b));
}

#[test]
fn the_authcode_is_the_hmac_of_the_documented_message() {
    let ticket = make_test_ticket();
    let exporter = make_test_exporter();
    let auth = AuthRecord::from_ticket(&ticket, &exporter);
    assert_eq!(
        hex::encode(auth.authcode),
        "1f222e485e1f3607a1d6c0d6c6164f37d27c8c75d86f6948d52207cf1af33d60"
    );

    let mut message = exporter.to_vec();
    message.extend_from_slice(&ticket.ticket_id);
    message.extend_from_slice(&ticket.not_after.to_le_bytes());
    assert_eq!(build_auth_message(&ticket, &exporter), message);
}

#[test]
fn the_wire_holds_type_length_identifier_and_code_and_no_key() {
    let ticket = make_test_ticket();
    let auth = AuthRecord::from_ticket(&ticket, &make_test_exporter());
    let wire = auth.encode();
    assert_eq!(wire.len(), 50);
    assert_eq!(wire[0], 0x00);
    assert_eq!(wire[1], 48);
    assert_eq!(&wire[2..18], &ticket.ticket_id[..]);
    assert_eq!(&wire[18..], &auth.authcode[..]);

    let payload = auth.to_payload();
    assert_eq!(&payload[..], &wire[2..]);
    let back = AuthRecord::from_payload(&payload).unwrap();
    assert_eq!(back.ticket_id, auth.ticket_id);
    assert_eq!(back.authcode, auth.authcode);
    assert!(AuthRecord::from_payload(&payload[1..]).is_none());
}

#[test]
fn a_record_is_read_off_the_front_and_the_rest_stays() {
    let auth = AuthRecord::from_ticket(&make_test_ticket(), &make_test_exporter());
    let mut wire = auth.encode().to_vec();
    wire.extend_from_slice(b"early data");
    let mut slice = wire.as_slice();
    assert!(AuthRecord::decode(&mut slice).is_some());
    assert_eq!(slice, b"early data");
}

#[test]
fn a_wrong_length_or_no_data_is_no_record() {
    assert!(AuthRecord::decode_slice(&[]).is_none());
    assert!(AuthRecord::decode_slice(&[0x00]).is_none());

    let mut buf = vec![0x00];
    encode_varint(49, &mut buf);
    buf.extend(vec![0u8; 49]);
    let mut slice = buf.as_slice();
    assert!(AuthRecord::decode(&mut slice).is_none());
    assert_eq!(slice.len(), 49, "type and length were read");
}

#[test]
fn a_record_for_another_ticket_does_not_verify() {
    let ticket = make_test_ticket();
    let exporter = make_test_exporter();
    let auth = AuthRecord::from_ticket(&ticket, &exporter);

    let mut other = make_test_ticket();
    other.ticket_id[5] = 1;
    assert!(!auth.verify(&other, &exporter));

    let mut longer = make_test_ticket();
    longer.not_after += 1;
    assert!(!auth.verify(&longer, &exporter), "the end of validity is authenticated");

    let mut rekeyed = make_test_ticket();
    rekeyed.auth_key = AuthKey::new([1; 32]);
    assert!(!auth.verify(&rekeyed, &exporter));
}

#[test]
fn both_ends_derive_the_exporter_alike() {
    assert_eq!(EXPORTER_LABEL, "construct veil-front auth v1");
    assert_eq!(EXPORTER_LEN, 32);
}
