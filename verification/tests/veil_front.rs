use base64::Engine;
use bytes::BytesMut;
use veil::client::method::MethodId;
use veil::client::obfuscator::{ObfuscatorError, ProbeRequest};
use veil::client::veil_front::{
    auth_frame, classify_tls_error, connect_error, parse_ticket, ticket_from_decoded,
    ConnectFailure, Reply, ReplyReader, VeilFrontObfuscator, Verdict, REPLY_LIMIT,
};
use veil::encoding::{decimal, join};
use veil::protocol::auth::AuthRecord;
use veil::protocol::frame::FrameKind;
use veil::protocol::ticket::{ticket_to_bytes, AuthKey, Ticket, AUTH_KEY_LEN, TICKET_ID_LEN};
use veil::relay::gate::{route_at, Decoded, GateResult};
use veil::relay::tickets::TicketStore;

fn ticket() -> Ticket {
    Ticket {
        ticket_id: [0xAB; TICKET_ID_LEN],
        auth_key: AuthKey::new([0xCD; AUTH_KEY_LEN]),
        not_before: 1_000_000,
        not_after: 1_000_000 + 6 * 3600,
        suite_id: 0x01,
    }
}

fn failure(r: Result<Ticket, ObfuscatorError>) -> ObfuscatorError {
    match r {
        Ok(_) => panic!("expected a failure"),
        Err(e) => e,
    }
}

fn text_of(e: ObfuscatorError) -> String {
    match e {
        ObfuscatorError::Handshake(text) => text,
        _ => panic!("expected a handshake failure"),
    }
}

#[test]
fn method_id_is_veil_front() {
    let obf = VeilFrontObfuscator::new();
    assert_eq!(obf.method_id(), MethodId::VeilFront);
}

#[test]
fn parse_ticket_from_base64() {
    // Build a valid 65-byte ticket.
    let ticket = ticket();

    let bytes = ticket_to_bytes(&ticket);
    let b64 = base64::engine::general_purpose::STANDARD.encode(bytes);

    let parsed = match parse_ticket(&b64) {
        Ok(parsed) => parsed,
        Err(e) => panic!("parse should succeed: {:?}", e),
    };
    assert_eq!(parsed.ticket_id, ticket.ticket_id);
    assert_eq!(parsed.auth_key.0, ticket.auth_key.0);
    assert_eq!(parsed.not_before, ticket.not_before);
    assert_eq!(parsed.not_after, ticket.not_after);
    assert_eq!(parsed.suite_id, ticket.suite_id);
}

#[test]
fn parse_ticket_empty_bundle() {
    let err = failure(parse_ticket(""));
    assert!(matches!(err, ObfuscatorError::Handshake(_)));
    assert_eq!(text_of(err), "no veil-front ticket in bundle");
}

#[test]
fn parse_ticket_invalid_base64() {
    let err = failure(parse_ticket("not-valid-base64!!!"));
    assert!(matches!(err, ObfuscatorError::Handshake(_)));
    let cause =
        base64::engine::general_purpose::STANDARD.decode("not-valid-base64!!!").unwrap_err();
    assert_eq!(text_of(err), format!("ticket base64 decode: {}", cause));
}

#[test]
fn parse_ticket_wrong_length() {
    // 10 bytes, not 65.
    let bytes = [0u8; 10];
    let b64 = base64::engine::general_purpose::STANDARD.encode(bytes);
    let err = failure(parse_ticket(&b64));
    assert!(matches!(err, ObfuscatorError::Handshake(_)));
    assert_eq!(text_of(err), "invalid ticket: expected 65 bytes, got 10");
}

#[test]
fn a_decoded_ticket_needs_its_length() {
    assert!(ticket_from_decoded(Ok(vec![1; 65])).is_ok());
    let err = failure(ticket_from_decoded(Ok(vec![1; 104])));
    assert_eq!(text_of(err), "invalid ticket: expected 65 bytes, got 104");
    let err = failure(ticket_from_decoded(Err("odd".to_string())));
    assert_eq!(text_of(err), "ticket base64 decode: odd");
}

#[test]
fn tls_failures_are_told_by_their_text() {
    let classify = |s: &str| classify_tls_error(s.to_string());
    assert!(matches!(classify("received fatal alert: 40"), ObfuscatorError::FingerprintBlocked));
    assert!(matches!(classify("handshake_failure"), ObfuscatorError::FingerprintBlocked));
    assert!(matches!(classify("alert: bad cert"), ObfuscatorError::CertProblem(_)));
    assert!(matches!(classify("could not verify"), ObfuscatorError::CertProblem(_)));
    match classify("error 40") {
        ObfuscatorError::Tls(text) => assert_eq!(text, "error 40"),
        _ => panic!("expected a TLS failure"),
    }
}

#[test]
fn connection_failures_are_told_apart() {
    assert!(matches!(connect_error(ConnectFailure::TimedOut), ObfuscatorError::Timeout));
    assert!(matches!(connect_error(ConnectFailure::Refused), ObfuscatorError::ConnectionRefused));
    let e = std::io::Error::new(std::io::ErrorKind::AddrNotAvailable, "no address");
    match connect_error(ConnectFailure::Other(e)) {
        ObfuscatorError::Io(e) => assert_eq!(e.kind(), std::io::ErrorKind::AddrNotAvailable),
        _ => panic!("expected an I/O failure"),
    }
}

#[test]
fn the_auth_frame_opens_the_gate() {
    let exporter = [5u8; 32];
    let frame = auth_frame(&ticket(), &exporter);
    assert!(frame.is_auth());
    let record = AuthRecord::from_payload(&frame.payload).unwrap();
    assert!(record.verify(&ticket(), &exporter));

    let mut store = TicketStore::new();
    store.insert(ticket());
    let decoded = Decoded::Frame(frame);
    let (buf, left) = (BytesMut::new(), BytesMut::new());
    let result = route_at((), buf, left, &decoded, &store, &exporter, 1_000_000);
    assert!(matches!(result, GateResult::Tunnel { .. }));
}

#[test]
fn only_data_shows_a_live_tunnel() {
    let mut reader = ReplyReader::new();
    assert!(reader.read(100).is_ok());
    assert!(matches!(reader.judge(Reply::Frame(FrameKind::Data)), Verdict::Live));
    assert!(matches!(reader.judge(Reply::Incomplete), Verdict::ReadMore));
    let failed = |reply| match reader.judge(reply) {
        Verdict::Failed(e) => text_of(e),
        _ => panic!("expected a failure"),
    };
    assert_eq!(failed(Reply::Frame(FrameKind::Auth)), "relay echoed AUTH frame");
    assert_eq!(failed(Reply::Frame(FrameKind::Chaff)), "relay sent CHAFF frame before DATA");
    assert_eq!(failed(Reply::Frame(FrameKind::Other(0x4F))), "unexpected frame type: 0x4f");
    assert_eq!(
        failed(Reply::Malformed("bad varint".to_string())),
        "frame decode error (routed to site): bad varint"
    );
}

#[test]
fn site_content_is_given_up_after_its_limit() {
    let mut reader = ReplyReader::new();
    assert!(reader.read(REPLY_LIMIT).is_ok());
    assert!(matches!(reader.judge(Reply::Incomplete), Verdict::ReadMore));
    assert!(reader.read(1).is_ok());
    match reader.judge(Reply::Incomplete) {
        Verdict::Failed(e) => assert_eq!(
            text_of(e),
            "received >64KB without valid frame (likely routed to site)"
        ),
        _ => panic!("expected a failure"),
    }
    assert_eq!(text_of(reader.read(0).unwrap_err()), "relay closed connection after auth");
}

#[test]
fn numbers_are_written_out() {
    for n in [0, 7, 10, 65, 104, usize::MAX] {
        assert_eq!(decimal(n), n.to_string());
    }
    assert_eq!(join("a", "bc"), "abc");
}

#[test]
fn an_empty_request_asks_for_nothing() {
    let req = ProbeRequest::default();
    assert!(req.relay_addr.is_empty() && req.veil_front_ticket_b64.is_empty());
}
