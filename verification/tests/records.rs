use veil::trace::records::{
    Direction, RecordFramer, CT_APPLICATION_DATA, CT_HANDSHAKE, MAX_RECORD_LEN,
};

fn record(ct: u8, len: usize) -> Vec<u8> {
    let mut v = vec![ct, 0x03, 0x03];
    v.extend_from_slice(&(len as u16).to_be_bytes());
    v.extend(std::iter::repeat_n(0xAA, len));
    v
}

#[test]
fn back_to_back_records_are_counted_with_their_headers() {
    let mut f = RecordFramer::default();
    let mut out = Vec::new();
    let mut wire = record(CT_APPLICATION_DATA, 100);
    wire.extend(record(CT_APPLICATION_DATA, 40));

    f.push(&wire, 1.0, Direction::Up, &mut out);

    assert_eq!(out.iter().map(|r| r.len).collect::<Vec<_>>(), vec![105, 45]);
}

/// The point of timing a record by its last byte: an observer cannot see a record until it is
/// complete, so a record spanning two packets is an event at the second one.
#[test]
fn a_record_split_across_packets_is_timed_by_its_completion() {
    let mut f = RecordFramer::default();
    let mut out = Vec::new();
    let wire = record(CT_APPLICATION_DATA, 100);

    f.push(&wire[..50], 1.0, Direction::Down, &mut out);
    assert!(out.is_empty(), "half a record is not an event");
    f.push(&wire[50..], 2.5, Direction::Down, &mut out);

    assert_eq!(out.len(), 1);
    assert_eq!(out[0].t, 2.5);
    assert_eq!(out[0].len, 105);
}

/// Several records coalesced into one packet are still several records.
#[test]
fn coalesced_records_in_one_packet_stay_separate() {
    let mut f = RecordFramer::default();
    let mut out = Vec::new();
    let mut wire = Vec::new();
    for len in [256, 256, 1024] {
        wire.extend(record(CT_APPLICATION_DATA, len));
    }

    f.push(&wire, 1.0, Direction::Up, &mut out);

    assert_eq!(out.iter().map(|r| r.len).collect::<Vec<_>>(), vec![261, 261, 1029]);
}

#[test]
fn the_handshake_is_distinguishable_from_what_follows() {
    let mut f = RecordFramer::default();
    let mut out = Vec::new();
    let mut wire = record(CT_HANDSHAKE, 300);
    wire.extend(record(CT_APPLICATION_DATA, 64));

    f.push(&wire, 1.0, Direction::Up, &mut out);

    assert!(!out[0].is_application());
    assert!(out[1].is_application());
}

/// Garbage must stop the framer. Inventing lengths from a desynced stream would produce a
/// distribution that looks like a finding.
#[test]
fn an_impossible_header_desyncs_instead_of_inventing_records() {
    let mut f = RecordFramer::default();
    let mut out = Vec::new();

    f.push(&[0x47, 0x45, 0x54, 0x20, 0x2f], 1.0, Direction::Up, &mut out);

    assert!(f.desynced(), "\"GET /\" is not a TLS record");
    assert!(out.is_empty());
}

#[test]
fn an_oversized_length_desyncs() {
    let mut f = RecordFramer::default();
    let mut out = Vec::new();

    f.push(&[CT_APPLICATION_DATA, 3, 3, 0xFF, 0xFF], 1.0, Direction::Up, &mut out);

    assert!(f.desynced());
}

#[test]
fn an_incomplete_trailing_record_is_reported_as_pending() {
    let mut f = RecordFramer::default();
    let mut out = Vec::new();
    let wire = record(CT_APPLICATION_DATA, 100);

    f.push(&wire[..30], 1.0, Direction::Up, &mut out);

    assert_eq!(out.len(), 0);
    assert_eq!(f.pending(), 30);
}

#[test]
fn byte_by_byte_gives_the_same_records() {
    let mut wire = record(CT_HANDSHAKE, 7);
    wire.extend(record(CT_APPLICATION_DATA, 0));
    wire.extend(record(CT_APPLICATION_DATA, 300));
    wire.extend(&[CT_APPLICATION_DATA, 3]);

    let mut whole = RecordFramer::default();
    let mut a = Vec::new();
    whole.push(&wire, 0, Direction::Up, &mut a);

    let mut pieces = RecordFramer::default();
    let mut b = Vec::new();
    for byte in &wire {
        pieces.push(&[*byte], 0, Direction::Up, &mut b);
    }
    assert_eq!(a, b);
    assert_eq!(a.iter().map(|r| r.len).collect::<Vec<_>>(), vec![12, 5, 305]);
    assert_eq!(whole.pending(), 2);
    assert_eq!(pieces.pending(), 2);
}

#[test]
fn the_largest_record_is_accepted_and_one_byte_more_is_not() {
    let mut f = RecordFramer::default();
    let mut out = Vec::new();
    f.push(&record(CT_APPLICATION_DATA, MAX_RECORD_LEN), 0, Direction::Up, &mut out);
    assert_eq!(out[0].len, 5 + 16640);
    f.push(&record(CT_APPLICATION_DATA, MAX_RECORD_LEN + 1), 0, Direction::Up, &mut out);
    assert!(f.desynced());
    assert_eq!(out.len(), 1);
}

#[test]
fn a_desynced_direction_takes_nothing_more() {
    let mut f = RecordFramer::default();
    let mut out = Vec::new();
    let mut wire = record(CT_APPLICATION_DATA, 3);
    wire.extend(b"garbage");
    f.push(&wire, 0, Direction::Down, &mut out);
    assert_eq!(out.len(), 1);
    assert!(f.desynced());
    assert_eq!(f.pending(), 7);
    f.push(&record(CT_APPLICATION_DATA, 3), 1, Direction::Down, &mut out);
    assert_eq!(out.len(), 1);
    assert_eq!(f.pending(), 7);
}

/// Every byte is in a record or pending, and what is pending holds no complete record.
#[test]
fn every_pushed_byte_is_in_a_record_or_pending() {
    let mut wire = Vec::new();
    for len in [0, 3, 700, 16640, 41] {
        wire.extend(record(CT_APPLICATION_DATA, len));
    }
    wire.extend(&record(CT_HANDSHAKE, 16640)[..16644]);
    let mut f = RecordFramer::default();
    let mut out = Vec::new();
    let mut pushed = 0;
    for chunk in wire.chunks(977) {
        f.push(chunk, pushed, Direction::Down, &mut out);
        pushed += chunk.len();
        let framed: usize = out.iter().map(|r| r.len).sum();
        assert_eq!(f.pending(), pushed - framed);
        assert!(f.pending() < 5 + MAX_RECORD_LEN);
    }
    assert_eq!(out.len(), 5);
}
