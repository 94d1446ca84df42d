use bytes::Bytes;
use veil::protocol::frame::{Frame, FrameKind};
use veil::relay::tunnel::{
    is_disconnect, step_down, step_up, FailureKind, UpAction, UpEvent, COPY_BUF,
};

#[test]
fn data_is_written_and_everything_else_dropped() {
    let frames = vec![
        Frame::data(Bytes::from_static(b"hello")),
        Frame::chaff(Bytes::from(vec![0u8; 16])),
        Frame::auth(Bytes::from(vec![1u8; 48])),
        Frame::new(FrameKind::Other(0x55), Bytes::from_static(b"?")),
        Frame::data(Bytes::from_static(b"world")),
    ];
    let mut got = Vec::new();
    for frame in frames {
        match step_up(UpEvent::Frame(frame)) {
            UpAction::Write(payload) => got.extend_from_slice(&payload),
            UpAction::Decode => {}
            _ => panic!("a frame is written or dropped"),
        }
    }
    assert_eq!(&got, b"helloworld");
}

#[test]
fn frames_know_their_kind() {
    let payload = Bytes::from_static(b"p");
    let auth = Frame::auth(payload.clone());
    let data = Frame::data(payload.clone());
    let chaff = Frame::chaff(payload.clone());
    assert!(auth.is_auth() && !auth.is_data() && !auth.is_chaff());
    assert!(data.is_data() && !data.is_auth() && !data.is_chaff());
    assert!(chaff.is_chaff() && !chaff.is_auth() && !chaff.is_data());
    assert_eq!(chaff.payload, payload);
}

#[test]
fn the_client_is_read_until_it_closes() {
    assert!(matches!(step_up(UpEvent::NeedMore), UpAction::Read));
    assert!(matches!(step_up(UpEvent::Read(1)), UpAction::Decode));
    assert!(matches!(step_up(UpEvent::Read(0)), UpAction::Finish));
}

#[test]
fn the_backend_is_wrapped_in_data_frames() {
    let frame = step_down(b"helloworld").unwrap();
    assert!(frame.is_data());
    assert_eq!(&frame.payload[..], b"helloworld");
    assert!(step_down(b"").is_none());
    assert_eq!(COPY_BUF, 8192);
}

#[test]
fn a_client_that_goes_away_is_no_failure() {
    assert!(is_disconnect(FailureKind::ConnectionReset));
    assert!(is_disconnect(FailureKind::BrokenPipe));
    assert!(!is_disconnect(FailureKind::Other));
}
