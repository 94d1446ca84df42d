use bytes::Bytes;
use veil::client::session::VeilFrontSession;
use veil::protocol::frame::{Frame, FrameKind};

/// With a payload queued, the first frame is that DATA, never a chaff frame, even at the very
/// start of the front window when chaff is available.
#[test]
fn up_payload_takes_priority_over_chaff() {
    let (mut up, mut down) = VeilFrontSession::new();
    up.queue_local(b"hello");

    let mut chaff = Some(Frame::chaff(Bytes::from(vec![0u8; 32])));
    let frame = up.next_frame(&mut chaff).expect("a frame is due");
    down.feed(frame);

    assert_eq!(
        down.next_payload().as_deref(),
        Some(&b"hello"[..]),
        "queued payload must be the first frame, not chaff"
    );
    assert!(chaff.is_some(), "the chaff stays owed");
}

/// With nothing queued, the up half emits chaff during the front window, and that chaff carries
/// no DATA payload downstream.
#[test]
fn up_emits_chaff_when_idle() {
    let (mut up, mut down) = VeilFrontSession::new();
    let mut chaff = Some(Frame::chaff(Bytes::from(vec![0u8; 32])));
    assert!(up.has_pending(chaff.is_some()), "front-loaded chaff is pending at start");

    let frame = up.next_frame(&mut chaff).expect("chaff is due at connection start");
    down.feed(frame);
    assert_eq!(down.next_payload(), None, "an idle-window frame is chaff, not DATA");
    assert!(chaff.is_none());
    assert!(!up.has_pending(false));
    assert!(up.next_frame(&mut chaff).is_none());
}

#[test]
fn only_data_payloads_come_out_and_in_order() {
    let (_up, mut down) = VeilFrontSession::new();
    assert_eq!(down.next_payload(), None);
    down.feed(Frame::data(Bytes::from_static(b"alpha")));
    down.feed(Frame::chaff(Bytes::from_static(b"\x00\x00\x00")));
    down.feed(Frame::auth(Bytes::from_static(b"stray")));
    down.feed(Frame::new(FrameKind::Other(9), Bytes::from_static(b"?")));
    down.feed(Frame::data(Bytes::from_static(b"bravo")));

    let mut got: Vec<Vec<u8>> = Vec::new();
    while let Some(p) = down.next_payload() {
        got.push(p.to_vec());
    }
    assert_eq!(got, vec![b"alpha".to_vec(), b"bravo".to_vec()]);
}

#[test]
fn what_is_queued_arrives_whatever_chaff_is_between() {
    let (mut up, mut down) = VeilFrontSession::new();
    let mut chaff = None;
    for chunk in [&b"one"[..], &b""[..], &b"two"[..]] {
        up.queue_local(chunk);
    }
    for _ in 0..5 {
        chaff = chaff.or(Some(Frame::chaff(Bytes::new())));
        down.feed(up.next_frame(&mut chaff).unwrap());
    }
    let mut got: Vec<Bytes> = Vec::new();
    while let Some(p) = down.next_payload() {
        got.push(p);
    }
    assert_eq!(got, vec![&b"one"[..], &b""[..], &b"two"[..]]);
}

#[test]
fn feeds_and_pops_mix_freely() {
    let (_up, mut down) = VeilFrontSession::new();
    let mut got: Vec<Bytes> = Vec::new();
    for (i, frame) in [
        Frame::chaff(Bytes::from_static(b"0")),
        Frame::data(Bytes::from_static(b"a")),
        Frame::data(Bytes::from_static(b"b")),
        Frame::chaff(Bytes::from_static(b"1")),
        Frame::data(Bytes::from_static(b"c")),
    ]
    .into_iter()
    .enumerate()
    {
        down.feed(frame);
        if i % 2 == 0 {
            got.extend(down.next_payload());
        }
    }
    assert_eq!(got, vec![&b"a"[..], &b"b"[..]]);
    assert_eq!(down.next_payload().as_deref(), Some(&b"c"[..]));
    assert_eq!(down.next_payload(), None);
}
