//! Frames: what an opened connection carries, in both directions.

use bytes::Bytes;
use vstd::prelude::*;

verus! {

/// The type byte of an AUTH frame.
pub const FRAME_TYPE_AUTH: u8 = 0x00;

/// What a frame is for.
#[derive(Debug, Clone, Copy, PartialEq, Eq, Structural)]
pub enum FrameKind {
    /// The auth record, first on a connection.
    Auth,
    /// Payload of the tunnel.
    Data,
    /// Cover traffic.
    Chaff,
    /// A type byte that stands for nothing known.
    Other(u8),
}

/// One frame.
#[derive(Debug)]
pub struct Frame {
    pub kind: FrameKind,
    pub payload: Bytes,
}

impl Frame {
    /// A frame of a given kind.
    pub fn new(kind: FrameKind, payload: Bytes) -> (r: Frame)
        ensures
            r == (Frame { kind, payload }),
    {
        Frame { kind, payload }
    }

    /// An AUTH frame.
    pub fn auth(payload: Bytes) -> (r: Frame)
        ensures
            r == (Frame { kind: FrameKind::Auth, payload }),
    {
        Frame { kind: FrameKind::Auth, payload }
    }

    /// A DATA frame.
    pub fn data(payload: Bytes) -> (r: Frame)
        ensures
            r == (Frame { kind: FrameKind::Data, payload }),
    {
        Frame { kind: FrameKind::Data, payload }
    }

    /// A CHAFF frame.
    pub fn chaff(payload: Bytes) -> (r: Frame)
        ensures
            r == (Frame { kind: FrameKind::Chaff, payload }),
    {
        Frame { kind: FrameKind::Chaff, payload }
    }

    pub fn is_auth(&self) -> (r: bool)
        ensures
            r == (self.kind == FrameKind::Auth),
    {
        self.kind == FrameKind::Auth
    }

    pub fn is_data(&self) -> (r: bool)
        ensures
            r == (self.kind == FrameKind::Data),
    {
        self.kind == FrameKind::Data
    }

    pub fn is_chaff(&self) -> (r: bool)
        ensures
            r == (self.kind == FrameKind::Chaff),
    {
        self.kind == FrameKind::Chaff
    }
}

}
