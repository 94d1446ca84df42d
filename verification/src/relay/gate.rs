//! Constant-shape gate: the load-bearing module.
//!
//! After TLS handshake, the relay reads the first application data and routes:
//! - **Valid auth**: Tunnel (h2c forward to the backend)
//! - **Invalid/missing**: Site (forward to cover application)
//!
//! **Critical:** both branches must be constant-shape. Failed auth MUST NOT:
//! - Close the connection differently
//! - Add custom timeouts
//! - Change response timing or length distribution
//!
//! The cover app's own behaviour is the ONLY timing on the unauth branch.

use crate::buffers::{as_slice, empty_buffer};
use crate::protocol::auth::{AuthRecord, AUTH_PAYLOAD_LEN};
use crate::protocol::frame::Frame;
use crate::protocol::ticket::{ClockBeforeEpoch, Ticket};
use crate::relay::tickets::TicketStore;
use bytes::BytesMut;
use vstd::prelude::*;

verus! {

/// Where a connection goes.
pub enum GateResult<S> {
    /// Valid auth: this connection is a tunnel.
    Tunnel {
        /// The original TLS stream (un-split).
        stream: S,
        /// Remaining buffered data after the AUTH frame was consumed.
        /// May contain early tunnel data from the client.
        leftover: BytesMut,
    },
    /// Invalid auth: forward to cover site.
    Site {
        /// The original TLS stream (un-split).
        stream: S,
        /// The raw bytes that were read (first application data).
        /// Must be forwarded to the site backend as-is.
        first_bytes: BytesMut,
    },
}

/// What to do after a read.
#[derive(Debug, Clone, Copy, PartialEq, Eq, Structural)]
pub enum AfterRead {
    /// Too little to hold an AUTH frame: read on.
    ReadMore,
    /// Enough to try a decode.
    Decode,
    /// The client has closed its side: route what there is to the site.
    ToSite,
}

/// The fewest bytes an AUTH frame takes up: its payload, one for the type and one for the length.
pub const ENOUGH_FOR_AUTH: usize = 50;

/// From this many bytes on a frame that is still incomplete is taken for no AUTH frame: its
/// payload, one for the type and two for the length.
pub const TOO_LONG_FOR_AUTH: usize = 51;

/// What follows a read of `n` bytes that leaves `buffered` bytes in all.
pub open spec fn next_after_read(n: usize, buffered: int) -> AfterRead {
    if buffered >= AUTH_PAYLOAD_LEN + 2 {
        AfterRead::Decode
    } else if n == 0 {
        AfterRead::ToSite
    } else {
        AfterRead::ReadMore
    }
}

/// Decides what to do after a read of `n` bytes that leaves `buffered` bytes in all. A whole AUTH
/// frame is looked at even if nothing follows it.
pub fn after_read(n: usize, buffered: usize) -> (r: AfterRead)
    ensures
        r == next_after_read(n, buffered as int),
{
    if buffered >= ENOUGH_FOR_AUTH {
        AfterRead::Decode
    } else if n == 0 {
        AfterRead::ToSite
    } else {
        AfterRead::ReadMore
    }
}

/// What decoding the first bytes gave.
pub enum Decoded {
    /// A whole frame.
    Frame(Frame),
    /// The start of a frame.
    Incomplete,
    /// No frame at all.
    Malformed,
}

/// What to do after a decode.
#[derive(Debug, Clone, Copy, PartialEq, Eq, Structural)]
pub enum AfterDecode {
    /// What is there may still become an AUTH frame: read on.
    ReadMore,
    /// Route the connection by what was decoded.
    Route,
}

/// What follows a decode of `buffered` bytes, of a connection that the client has closed or not.
pub open spec fn next_after_decode(decoded: Decoded, buffered: int, closed: bool) -> AfterDecode {
    if decoded is Incomplete && buffered < AUTH_PAYLOAD_LEN + 3 && !closed {
        AfterDecode::ReadMore
    } else {
        AfterDecode::Route
    }
}

/// Decides what to do after a decode of `buffered` bytes: the start of a frame is waited for while
/// it can still become an AUTH frame and the client has not closed its side.
pub fn after_decode(decoded: &Decoded, buffered: usize, closed: bool) -> (r: AfterDecode)
    ensures
        r == next_after_decode(*decoded, buffered as int, closed),
{
    match decoded {
        Decoded::Incomplete => {
            if buffered < TOO_LONG_FOR_AUTH && !closed {
                AfterDecode::ReadMore
            } else {
                AfterDecode::Route
            }
        },
        _ => AfterDecode::Route,
    }
}

/// Whether a frame is an auth record that the store accepts, in this session and at this time.
pub open spec fn is_admitted(
    decoded: Decoded,
    store: Map<Seq<u8>, crate::protocol::ticket::Ticket>,
    exporter: Seq<u8>,
    now: u64,
) -> bool {
    match decoded {
        Decoded::Frame(frame) => {
            let payload = crate::buffers::bytes_in(frame.payload);
            &&& frame.kind == crate::protocol::frame::FrameKind::Auth
            &&& payload.len() == AUTH_PAYLOAD_LEN
            &&& crate::relay::tickets::accepted(
                store,
                payload.take(16),
                payload.skip(16),
                exporter,
                now,
            ) is Some
        },
        _ => false,
    }
}

/// Where a connection goes: to the tunnel with what is left behind the frame, or to the site with
/// the first bytes as they came.
pub open spec fn routed<S>(
    admitted: bool,
    stream: S,
    first_bytes: BytesMut,
    leftover: BytesMut,
) -> GateResult<S> {
    if admitted {
        GateResult::Tunnel { stream, leftover }
    } else {
        GateResult::Site { stream, first_bytes }
    }
}

/// The record that a frame carries, if it is an AUTH frame with the payload of one.
pub fn record_in(decoded: &Decoded) -> (r: Option<AuthRecord>)
    ensures
        r is Some <==> (decoded matches Decoded::Frame(frame) && frame.kind
            == crate::protocol::frame::FrameKind::Auth && crate::buffers::bytes_in(
            frame.payload,
        ).len() == AUTH_PAYLOAD_LEN),
        r matches Some(record) ==> {
            let payload = crate::buffers::bytes_in(decoded->Frame_0.payload);
            &&& record.payload() == payload
            &&& record.ticket_id@ == payload.take(16)
            &&& record.authcode@ == payload.skip(16)
        },
{
    match decoded {
        Decoded::Frame(frame) => {
            if frame.is_auth() {
                let r: Option<AuthRecord> = AuthRecord::from_payload(as_slice(&frame.payload));
                proof {
                    if let Some(record) = r {
                        let payload = crate::buffers::bytes_in(frame.payload);
                        assert(record.ticket_id@ =~= payload.take(16));
                        assert(record.authcode@ =~= payload.skip(16));
                    }
                }
                r
            } else {
                None
            }
        },
        _ => None,
    }
}

/// Routes a connection by its first bytes, at a time. `buf` are the bytes that were read,
/// `leftover` those behind the frame that was decoded from them.
pub fn route_at<S>(
    stream: S,
    buf: BytesMut,
    leftover: BytesMut,
    decoded: &Decoded,
    store: &TicketStore,
    exporter: &[u8; 32],
    now: u64,
) -> (r: GateResult<S>)
    ensures
        r == routed(is_admitted(*decoded, store@, exporter@, now), stream, buf, leftover),
{
    match record_in(decoded) {
        Some(record) => {
            match store.validate_at(&record.ticket_id, &record.authcode, exporter, now) {
                Some(_) => GateResult::Tunnel { stream, leftover },
                None => GateResult::Site { stream, first_bytes: buf },
            }
        },
        None => GateResult::Site { stream, first_bytes: buf },
    }
}

/// Whether a frame is an auth record for a ticket of the store.
pub open spec fn names_ticket(
    decoded: Decoded,
    store: Map<Seq<u8>, crate::protocol::ticket::Ticket>,
) -> bool {
    match decoded {
        Decoded::Frame(frame) => {
            let payload = crate::buffers::bytes_in(frame.payload);
            &&& frame.kind == crate::protocol::frame::FrameKind::Auth
            &&& payload.len() == AUTH_PAYLOAD_LEN
            &&& store.contains_key(payload.take(16))
        },
        _ => false,
    }
}

/// Routes a connection by its first bytes and by what a clock reads: at the time it reads, and with
/// the clock's own failure where it reads none, unless no ticket is named.
pub fn route_by<S>(
    stream: S,
    buf: BytesMut,
    leftover: BytesMut,
    decoded: &Decoded,
    store: &TicketStore,
    exporter: &[u8; 32],
    reading: Result<u64, ClockBeforeEpoch>,
) -> (r: Result<GateResult<S>, ClockBeforeEpoch>)
    ensures
        r == if !names_ticket(*decoded, store@) {
            Ok(GateResult::Site { stream, first_bytes: buf })
        } else {
            match reading {
                Ok(now) => Ok::<GateResult<S>, ClockBeforeEpoch>(
                    routed(is_admitted(*decoded, store@, exporter@, now), stream, buf, leftover),
                ),
                Err(e) => Err(e),
            }
        },
{
    match record_in(decoded) {
        Some(record) => match store.validate_by(
            &record.ticket_id,
            &record.authcode,
            exporter,
            reading,
        ) {
            Ok(Some(_)) => Ok(GateResult::Tunnel { stream, leftover }),
            Ok(None) => Ok(GateResult::Site { stream, first_bytes: buf }),
            Err(e) => Err(e),
        },
        None => Ok(GateResult::Site { stream, first_bytes: buf }),
    }
}

/// Routes a connection by its first bytes, at the time that the system clock reads. There is no
/// saying where that is before the Unix epoch, unless no ticket is named.
pub fn route<S>(
    stream: S,
    buf: BytesMut,
    leftover: BytesMut,
    decoded: &Decoded,
    store: &TicketStore,
    exporter: &[u8; 32],
) -> (r: Result<GateResult<S>, ClockBeforeEpoch>)
    ensures
        !names_ticket(*decoded, store@) ==> r == Ok::<GateResult<S>, ClockBeforeEpoch>(
            GateResult::Site { stream, first_bytes: buf },
        ),
        r matches Ok(result) ==> exists|now: u64|
            result == routed(
                #[trigger] is_admitted(*decoded, store@, exporter@, now),
                stream,
                buf,
                leftover,
            ),
        names_ticket(*decoded, store@) ==> exists|reading: Result<u64, ClockBeforeEpoch>| #[trigger]
            crate::protocol::ticket::is_reading(reading) && match reading {
                Ok(now) => r == Ok::<GateResult<S>, ClockBeforeEpoch>(
                    routed(is_admitted(*decoded, store@, exporter@, now), stream, buf, leftover),
                ),
                Err(e) => r == Err::<GateResult<S>, ClockBeforeEpoch>(e),
            },
{
    match record_in(decoded) {
        Some(record) => {
            let answer: Result<Option<Ticket>, ClockBeforeEpoch> = store.validate(
                &record.ticket_id,
                &record.authcode,
                exporter,
            );
            proof {
                lemma_admitted_as_answered(*decoded, record, store@, exporter@, 0);
                if names_ticket(*decoded, store@) {
                    let reading = choose|reading: Result<u64, ClockBeforeEpoch>| #[trigger]
                        crate::protocol::ticket::is_reading(reading) && match reading {
                            Ok(now) => answer == Ok::<Option<Ticket>, ClockBeforeEpoch>(
                                crate::relay::tickets::accepted(
                                    store@,
                                    record.ticket_id@,
                                    record.authcode@,
                                    exporter@,
                                    now,
                                ),
                            ),
                            Err(e) => answer == Err::<Option<Ticket>, ClockBeforeEpoch>(e),
                        };
                    assert(crate::protocol::ticket::is_reading(reading));
                    if let Ok(now) = reading {
                        lemma_admitted_as_answered(*decoded, record, store@, exporter@, now);
                    }
                }
            }
            match answer {
                Ok(Some(_)) => Ok(GateResult::Tunnel { stream, leftover }),
                Ok(None) => Ok(GateResult::Site { stream, first_bytes: buf }),
                Err(e) => Err(e),
            }
        },
        None => {
            assert(!is_admitted(*decoded, store@, exporter@, 0));
            Ok(GateResult::Site { stream, first_bytes: buf })
        },
    }
}

proof fn lemma_admitted_as_answered(
    decoded: Decoded,
    record: AuthRecord,
    store: Map<Seq<u8>, Ticket>,
    exporter: Seq<u8>,
    now: u64,
)
    requires
        decoded matches Decoded::Frame(frame) && {
            let payload = crate::buffers::bytes_in(frame.payload);
            &&& frame.kind == crate::protocol::frame::FrameKind::Auth
            &&& payload.len() == AUTH_PAYLOAD_LEN
            &&& record.ticket_id@ == payload.take(16)
            &&& record.authcode@ == payload.skip(16)
        },
    ensures
        names_ticket(decoded, store) == store.contains_key(record.ticket_id@),
        is_admitted(decoded, store, exporter, now) == (crate::relay::tickets::accepted(
            store,
            record.ticket_id@,
            record.authcode@,
            exporter,
            now,
        ) is Some),
{
}

/// A connection whose session gave no exporter goes to the site: nothing was read from it yet.
pub fn route_without_exporter<S>(stream: S) -> (r: GateResult<S>)
    ensures
        r matches GateResult::Site { stream: s, first_bytes } && s == stream
            && crate::buffers::buffered_in(first_bytes) == Seq::<u8>::empty(),
{
    GateResult::Site { stream, first_bytes: empty_buffer() }
}

/// A connection that the client closes before it sent an AUTH frame goes to the site, with what
/// was read.
pub fn route_closed<S>(stream: S, buf: BytesMut) -> (r: GateResult<S>)
    ensures
        r == (GateResult::Site { stream, first_bytes: buf }),
{
    GateResult::Site { stream, first_bytes: buf }
}

/// Refusals have one shape: whatever is wrong with what a client sent, the site gets the same
/// bytes, as they came, and nothing tells one reason from another.
pub proof fn law_refusals_have_one_shape<S>(
    stream: S,
    buf: BytesMut,
    a: Decoded,
    b: Decoded,
    left_a: BytesMut,
    left_b: BytesMut,
    store: Map<Seq<u8>, crate::protocol::ticket::Ticket>,
    exporter: Seq<u8>,
    now: u64,
)
    requires
        !is_admitted(a, store, exporter, now),
        !is_admitted(b, store, exporter, now),
    ensures
        routed(is_admitted(a, store, exporter, now), stream, buf, left_a) == routed(
            is_admitted(b, store, exporter, now),
            stream,
            buf,
            left_b,
        ),
        routed(is_admitted(a, store, exporter, now), stream, buf, left_a) == (GateResult::Site {
            stream,
            first_bytes: buf,
        }),
{
}

/// The bytes of a record are enough: once they are there they are looked at, whether anything
/// follows them or the client closes its side.
pub proof fn law_a_whole_record_is_looked_at(record: AuthRecord, n: usize, buffered: int)
    requires
        buffered >= record.wire().len(),
    ensures
        record.wire().len() == AUTH_PAYLOAD_LEN + 2,
        next_after_read(n, buffered) == AfterRead::Decode,
{
    reveal_with_fuel(crate::protocol::varint::varint_of, 2);
}

/// No connection is waited for once the client has closed its side.
pub proof fn law_a_closed_connection_is_decided(decoded: Decoded, buffered: int)
    ensures
        next_after_read(0, buffered) != AfterRead::ReadMore,
        next_after_decode(decoded, buffered, true) == AfterDecode::Route,
{
}

/// The holder of an issued ticket gets its tunnel: the AUTH frame that it builds for this session
/// is looked at as soon as it is there, alone or not, and is admitted for as long as the ticket is
/// valid, with what was sent behind the frame.
pub proof fn law_a_ticket_holder_gets_a_tunnel<S>(
    stream: S,
    buf: BytesMut,
    leftover: BytesMut,
    frame: Frame,
    ticket: crate::protocol::ticket::Ticket,
    record: AuthRecord,
    store: Map<Seq<u8>, crate::protocol::ticket::Ticket>,
    exporter: Seq<u8>,
    now: u64,
    n: usize,
    buffered: int,
    closed: bool,
)
    requires
        store.contains_key(ticket.ticket_id@),
        store[ticket.ticket_id@] == ticket,
        ticket.valid_at(now),
        record.is_of(ticket, exporter),
        frame.kind == crate::protocol::frame::FrameKind::Auth,
        crate::buffers::bytes_in(frame.payload) == record.payload(),
    ensures
        routed(
            is_admitted(Decoded::Frame(frame), store, exporter, now),
            stream,
            buf,
            leftover,
        ) == (GateResult::Tunnel { stream, leftover }),
        buffered >= record.wire().len() ==> next_after_read(n, buffered) == AfterRead::Decode,
        next_after_decode(Decoded::Frame(frame), buffered, closed) == AfterDecode::Route,
{
    law_a_whole_record_is_looked_at(record, n, record.wire().len() as int);
    let payload = record.payload();
    assert(payload.take(16) =~= record.ticket_id@);
    assert(payload.skip(16) =~= record.authcode@);
}

/// Only the holder of a valid ticket is let in, and always. Of the time that the clock reads, the
/// connection gets a tunnel exactly if its first frame is an AUTH frame of 48 bytes, the first
/// sixteen of them are the identifier of a ticket in the store, the time lies between the ticket's
/// beginning and its end, both included, and the other thirty-two are the HMAC-SHA256, under its
/// key, of the exporter, its identifier and its end. Every other connection goes to the site.
pub proof fn law_the_tunnel_is_for_ticket_holders_only<S>(
    stream: S,
    buf: BytesMut,
    leftover: BytesMut,
    decoded: Decoded,
    store: Map<Seq<u8>, Ticket>,
    exporter: Seq<u8>,
    t: u64,
)
    ensures
        ({
            let holder = decoded matches Decoded::Frame(frame) && {
                let payload = crate::buffers::bytes_in(frame.payload);
                let ticket = store[payload.take(16)];
                let message = exporter + ticket.ticket_id@ + vstd::bytes::spec_u64_to_le_bytes(
                    ticket.not_after,
                );
                &&& frame.kind == crate::protocol::frame::FrameKind::Auth
                &&& payload.len() == 48
                &&& store.contains_key(payload.take(16))
                &&& ticket.not_before <= t
                &&& t <= ticket.not_after
                &&& payload.skip(16) == crate::crypto::hmac_sha256_of(ticket.auth_key.0@, message)
            };
            let result = routed(is_admitted(decoded, store, exporter, t), stream, buf, leftover);
            &&& holder ==> result == (GateResult::Tunnel { stream, leftover })
            &&& !holder ==> result == (GateResult::Site { stream, first_bytes: buf })
        }),
        names_ticket(decoded, store) <==> (decoded matches Decoded::Frame(frame) && frame.kind
            == crate::protocol::frame::FrameKind::Auth && crate::buffers::bytes_in(
            frame.payload,
        ).len() == 48 && store.contains_key(crate::buffers::bytes_in(frame.payload).take(16))),
{
}

/// How long a connection is read before it is looked at: until there are fifty bytes, which is what
/// an AUTH frame takes, or until the client closes its side. A frame that is still incomplete then
/// is waited for while there are only fifty bytes of it; a whole frame, a malformed one and
/// fifty-one bytes of anything are decided at once.
pub proof fn law_fifty_bytes_are_waited_for(
    n: usize,
    buffered: int,
    decoded: Decoded,
    closed: bool,
)
    ensures
        buffered >= 50 ==> next_after_read(n, buffered) == AfterRead::Decode,
        buffered < 50 && n > 0 ==> next_after_read(n, buffered) == AfterRead::ReadMore,
        buffered < 50 && n == 0 ==> next_after_read(n, buffered) == AfterRead::ToSite,
        decoded is Incomplete && buffered <= 50 && !closed ==> next_after_decode(
            decoded,
            buffered,
            closed,
        ) == AfterDecode::ReadMore,
        !(decoded is Incomplete) || buffered >= 51 || closed ==> next_after_decode(
            decoded,
            buffered,
            closed,
        ) == AfterDecode::Route,
{
}

}
