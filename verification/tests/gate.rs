use bytes::{Bytes, BytesMut};
use veil::protocol::auth::AuthRecord;
use veil::protocol::frame::{Frame, FrameKind};
use veil::protocol::ticket::{AuthKey, Ticket};
use veil::relay::gate::{
    after_decode, after_read, record_in, route, route_at, route_closed, route_without_exporter,
    AfterDecode, AfterRead, Decoded, GateResult,
};
use veil::relay::tickets::TicketStore;

fn ticket() -> Ticket {
    Ticket {
        ticket_id: [7; 16],
        auth_key: AuthKey::new([9; 32]),
        not_before: 1_000,
        not_after: 2_000,
        suite_id: 1,
    }
}

fn store() -> TicketStore {
    let mut store = TicketStore::new();
    store.insert(ticket());
    store
}

fn auth_frame(exporter: &[u8; 32]) -> Decoded {
    Decoded::Frame(Frame::auth(AuthRecord::from_ticket(&ticket(), exporter).to_payload()))
}

fn is_site<S>(result: GateResult<S>, bytes: &[u8]) -> bool {
    match result {
        GateResult::Site { first_bytes, .. } => &first_bytes[..] == bytes,
        GateResult::Tunnel { .. } => false,
    }
}

#[test]
fn gate_result_is_send() {
    // GateResult<BytesMut> must be Send for tokio::spawn.
    fn assert_send<T: Send>() {}
    assert_send::<GateResult<BytesMut>>();
}

#[test]
fn reading_goes_on_until_an_auth_frame_could_be_there() {
    assert_eq!(after_read(10, 10), AfterRead::ReadMore);
    assert_eq!(after_read(1, 49), AfterRead::ReadMore);
    assert_eq!(after_read(1, 50), AfterRead::Decode);
    assert_eq!(after_read(1, 51), AfterRead::Decode);
    assert_eq!(after_read(70_000, 70_000), AfterRead::Decode);
    assert_eq!(after_read(0, 0), AfterRead::ToSite);
    assert_eq!(after_read(0, 49), AfterRead::ToSite);
    assert_eq!(after_read(0, 50), AfterRead::Decode);
}

#[test]
fn the_start_of_a_frame_is_waited_for_while_it_can_become_an_auth_frame() {
    let start = Decoded::Incomplete;
    assert_eq!(after_decode(&start, 50, false), AfterDecode::ReadMore);
    assert_eq!(after_decode(&start, 51, false), AfterDecode::Route);
    assert_eq!(after_decode(&start, 50, true), AfterDecode::Route);
    assert_eq!(after_decode(&Decoded::Malformed, 50, false), AfterDecode::Route);
    assert_eq!(after_decode(&auth_frame(&[3u8; 32]), 50, false), AfterDecode::Route);
}

/// The record alone, then the end of the stream: valid auth goes to the tunnel.
#[test]
fn a_record_sent_alone_opens_the_tunnel() {
    let exporter = [3u8; 32];
    let wire = AuthRecord::from_ticket(&ticket(), &exporter).encode();
    assert_eq!(after_read(wire.len(), wire.len()), AfterRead::Decode);
    assert_eq!(after_read(0, wire.len()), AfterRead::Decode);
    let decoded = auth_frame(&exporter);
    assert_eq!(after_decode(&decoded, wire.len(), true), AfterDecode::Route);
    let (buf, left) = (BytesMut::from(&wire[..]), BytesMut::new());
    match route_at((), buf, left, &decoded, &store(), &exporter, 1_500) {
        GateResult::Tunnel { leftover, .. } => assert!(leftover.is_empty()),
        GateResult::Site { .. } => panic!("expected a tunnel"),
    }
}

#[test]
fn a_valid_record_opens_the_tunnel_with_what_is_left() {
    let exporter = [3u8; 32];
    let buf = BytesMut::from(&b"raw first bytes"[..]);
    let left = BytesMut::from(&b"early"[..]);
    match route_at((), buf, left, &auth_frame(&exporter), &store(), &exporter, 1_500) {
        GateResult::Tunnel { leftover, .. } => assert_eq!(&leftover[..], b"early"),
        GateResult::Site { .. } => panic!("expected a tunnel"),
    }
}

#[test]
fn every_refusal_gives_the_site_the_bytes_as_they_came() {
    let exporter = [3u8; 32];
    let other = [4u8; 32];
    let raw = b"raw first bytes";
    let cases = vec![
        (auth_frame(&other), 1_500),
        (auth_frame(&exporter), 999),
        (auth_frame(&exporter), 2_001),
        (Decoded::Frame(Frame::auth(Bytes::from(vec![7u8; 47]))), 1_500),
        (Decoded::Frame(Frame::data(Bytes::from(vec![7u8; 48]))), 1_500),
        (Decoded::Frame(Frame::new(FrameKind::Other(0x47), Bytes::new())), 1_500),
        (Decoded::Incomplete, 1_500),
        (Decoded::Malformed, 1_500),
    ];
    for (decoded, now) in cases {
        let buf = BytesMut::from(&raw[..]);
        let left = BytesMut::from(&b"early"[..]);
        let result = route_at((), buf, left, &decoded, &store(), &exporter, now);
        assert!(is_site(result, raw));
    }
}

#[test]
fn the_clock_decides_only_for_a_known_ticket() {
    let exporter = [3u8; 32];
    let raw = b"GET / HTTP/1.1";
    let buf = BytesMut::from(&raw[..]);
    let result = route((), buf, BytesMut::new(), &Decoded::Malformed, &store(), &exporter);
    assert!(is_site(result.unwrap(), raw));

    let buf = BytesMut::from(&raw[..]);
    let result = route((), buf, BytesMut::new(), &auth_frame(&exporter), &store(), &exporter);
    assert!(is_site(result.unwrap(), raw), "the ticket ended long ago");

    let mut open = TicketStore::new();
    let mut endless = ticket();
    endless.not_before = 0;
    endless.not_after = u64::MAX;
    let frame = Frame::auth(AuthRecord::from_ticket(&endless, &exporter).to_payload());
    open.insert(endless);
    let buf = BytesMut::from(&raw[..]);
    let result = route((), buf, BytesMut::new(), &Decoded::Frame(frame), &open, &exporter);
    assert!(matches!(result.unwrap(), GateResult::Tunnel { .. }));
}

#[test]
fn connections_without_exporter_or_data_go_to_the_site() {
    assert!(is_site(route_without_exporter(()), b""));
    assert!(is_site(route_closed((), BytesMut::from(&b"ab"[..])), b"ab"));
}

#[test]
fn a_record_is_read_off_an_auth_frame_only() {
    let exporter = [3u8; 32];
    let record = record_in(&auth_frame(&exporter)).unwrap();
    assert_eq!(record.ticket_id, [7; 16]);
    assert!(record.verify(&ticket(), &exporter));
    assert!(record_in(&Decoded::Frame(Frame::chaff(Bytes::from(vec![0u8; 48])))).is_none());
    assert!(record_in(&Decoded::Incomplete).is_none());
}
