//! Tunnel forwarding: ferry h2c gRPC traffic through the authenticated tunnel.
//!
//! After auth validation, the relay is a **framed** ferry between the client's
//! h2c gRPC stream and the backend (also h2c):
//!
//! - **client to backend:** decode veil-front frames; `DATA` payloads are written
//!   to the backend with their frame headers stripped; `CHAFF` frames are dropped.
//! - **backend to client:** raw backend bytes are wrapped in `DATA` frames.
//!
//! The relay never forwards frame headers to the backend, and the chaff channel is real on the
//! wire (CHAFF is silently discarded here, injected by the client's padding layer).

use crate::buffers::copy_bytes;
use crate::protocol::frame::{Frame, FrameKind};
use bytes::Bytes;
use vstd::prelude::*;

verus! {

/// Read buffer size for the backend to client direction.
pub const COPY_BUF: usize = 8192;

/// What has happened on the way from the client to the backend.
pub enum UpEvent {
    /// A frame was decoded from what is buffered.
    Frame(Frame),
    /// There is no whole frame in what is buffered.
    NeedMore,
    /// A read from the client gave this many bytes.
    Read(usize),
}

/// What to do next on the way from the client to the backend.
pub enum UpAction {
    /// Write these bytes to the backend, then decode again.
    Write(Bytes),
    /// Decode again.
    Decode,
    /// Read more from the client.
    Read,
    /// Shut the backend's side down and end.
    Finish,
}

/// What follows from an event.
pub open spec fn next_up(event: UpEvent) -> UpAction {
    match event {
        UpEvent::Frame(frame) => if frame.kind == FrameKind::Data {
            UpAction::Write(frame.payload)
        } else {
            UpAction::Decode
        },
        UpEvent::NeedMore => UpAction::Read,
        UpEvent::Read(n) => if n == 0 {
            UpAction::Finish
        } else {
            UpAction::Decode
        },
    }
}

/// Decides what to do next on the way from the client to the backend: `DATA` payloads are written,
/// `CHAFF` frames and any stray AUTH or unknown frame are dropped rather than corrupt the stream.
pub fn step_up(event: UpEvent) -> (r: UpAction)
    ensures
        r == next_up(event),
{
    match event {
        UpEvent::Frame(frame) => {
            if frame.is_data() {
                UpAction::Write(frame.payload)
            } else {
                UpAction::Decode
            }
        },
        UpEvent::NeedMore => UpAction::Read,
        UpEvent::Read(n) => {
            if n == 0 {
                UpAction::Finish
            } else {
                UpAction::Decode
            }
        },
    }
}

/// The bytes that the backend gets from the frames of a client.
pub open spec fn to_backend(frames: Seq<Frame>) -> Seq<u8>
    decreases frames.len(),
{
    if frames.len() == 0 {
        Seq::empty()
    } else {
        to_backend(frames.drop_last()) + match next_up(UpEvent::Frame(frames.last())) {
            UpAction::Write(payload) => crate::buffers::bytes_in(payload),
            _ => Seq::empty(),
        }
    }
}

/// What has happened on the way from the backend to the client: the frame for the bytes of a read,
/// none where the backend has closed its side.
pub fn step_down(chunk: &[u8]) -> (r: Option<Frame>)
    ensures
        r is None <==> chunk@.len() == 0,
        r matches Some(frame) ==> frame.kind == FrameKind::Data && crate::buffers::bytes_in(
            frame.payload,
        ) == chunk@,
{
    if chunk.len() == 0 {
        None
    } else {
        Some(Frame::data(copy_bytes(chunk)))
    }
}

/// How forwarding failed.
#[derive(Debug, Clone, Copy, PartialEq, Eq, Structural)]
pub enum FailureKind {
    ConnectionReset,
    BrokenPipe,
    Other,
}

/// Whether a failure is only the client going away, which ends a tunnel normally.
pub fn is_disconnect(kind: FailureKind) -> (r: bool)
    ensures
        r == (kind == FailureKind::ConnectionReset || kind == FailureKind::BrokenPipe),
{
    kind == FailureKind::ConnectionReset || kind == FailureKind::BrokenPipe
}

/// Cover traffic leaves no trace: a frame that is no `DATA` frame may come anywhere among the
/// frames of a client, and the backend gets the same bytes.
pub proof fn law_the_backend_never_sees_chaff(before: Seq<Frame>, cover: Frame, behind: Seq<Frame>)
    requires
        cover.kind != FrameKind::Data,
    ensures
        to_backend(before.push(cover) + behind) == to_backend(before + behind),
    decreases behind.len(),
{
    if behind.len() == 0 {
        assert(before.push(cover) + behind =~= before.push(cover));
        assert(before + behind =~= before);
        assert(before.push(cover).drop_last() =~= before);
        assert(to_backend(before) + Seq::<u8>::empty() =~= to_backend(before));
    } else {
        let rest = behind.drop_last();
        law_the_backend_never_sees_chaff(before, cover, rest);
        assert((before.push(cover) + behind).drop_last() =~= before.push(cover) + rest);
        assert((before + behind).drop_last() =~= before + rest);
    }
}

/// The bytes of a list of chunks, one after the other.
pub open spec fn joined(chunks: Seq<Seq<u8>>) -> Seq<u8>
    decreases chunks.len(),
{
    if chunks.len() == 0 {
        Seq::empty()
    } else {
        joined(chunks.drop_last()) + chunks.last()
    }
}

/// What one end of a tunnel wraps in `DATA` frames, the other end unwraps: the bytes come out as
/// they went in, in order, without frame headers.
pub proof fn law_a_tunnel_carries_the_bytes(chunks: Seq<Seq<u8>>, frames: Seq<Frame>)
    requires
        frames.len() == chunks.len(),
        forall|i: int|
            0 <= i < frames.len() ==> (#[trigger] frames[i]).kind == FrameKind::Data
                && crate::buffers::bytes_in(frames[i].payload) == chunks[i],
    ensures
        to_backend(frames) == joined(chunks),
    decreases frames.len(),
{
    if frames.len() > 0 {
        let (f, c) = (frames.drop_last(), chunks.drop_last());
        assert forall|i: int| 0 <= i < f.len() implies (#[trigger] f[i]).kind == FrameKind::Data
            && crate::buffers::bytes_in(f[i].payload) == c[i] by {
            assert(f[i] == frames[i]);
        }
        law_a_tunnel_carries_the_bytes(c, f);
        assert(frames[frames.len() - 1].kind == FrameKind::Data);
    }
}

/// What becomes of what a client sends: the payload of a `DATA` frame is written as it is, every
/// other frame is passed over, more is read only where no frame is left, and the way ends exactly
/// where the client has closed its side.
pub proof fn law_only_data_is_forwarded(frame: Frame, n: usize)
    ensures
        frame.kind == FrameKind::Data ==> next_up(UpEvent::Frame(frame)) == UpAction::Write(
            frame.payload,
        ),
        frame.kind != FrameKind::Data ==> next_up(UpEvent::Frame(frame)) == UpAction::Decode,
        next_up(UpEvent::NeedMore) == UpAction::Read,
        n > 0 ==> next_up(UpEvent::Read(n)) == UpAction::Decode,
        next_up(UpEvent::Read(0)) == UpAction::Finish,
{
}

}
