//! Auth record: session-bound authenticator sent in the first encrypted application record.
//!
//! # Protocol
//!
//! ```text
//! exp      = TLS-Exporter("construct veil-front auth v1", "", 32)   // RFC 8446, section 7.5
//! authcode = HMAC-SHA256(auth_key, exp || ticket_id || not_after)
//! auth_rec = frame(0x00, ticket_id[16] || authcode[32])            // 48-byte payload
//! ```
//!
//! # Why this shape
//! - Handshake stays clean: no `veil-front` bits in TLS handshake
//! - Secret never on the wire: `auth_key` is only used as HMAC key
//! - **Replay-proof by construction**: `exp` differs every TLS session, so
//!   a captured `auth_rec` is useless on any new connection (stateless!)
//! - Ticket is fungible: `ticket_id` does not identify the client

use crate::buffers::{freeze, new_buffer, put_byte, put_bytes};
use crate::crypto::{ct_eq, hmac_sha256};
use crate::protocol::frame::FRAME_TYPE_AUTH;
use crate::protocol::ticket::{take_16, take_32, Ticket};
use crate::protocol::varint::{decode_varint, encode_varint_vec};
use bytes::{Bytes, BytesMut};
use vstd::prelude::*;

verus! {

/// Length of the HMAC-SHA256 authcode in bytes.
pub const AUTHCODE_LEN: usize = 32;

/// Total payload length of an AUTH frame: ticket_id (16) + authcode (32).
pub const AUTH_PAYLOAD_LEN: usize = 48;

/// The label under which both ends derive their session's exporter.
pub const EXPORTER_LABEL: &'static str = "construct veil-front auth v1";

/// Length of the exporter in bytes.
pub const EXPORTER_LEN: usize = 32;

/// An auth record parsed from the first application data of a TLS connection.
#[derive(Debug, Clone, Copy)]
pub struct AuthRecord {
    /// The ticket identifier (opaque server-side index).
    pub ticket_id: [u8; 16],
    /// The HMAC authenticator. Compared in constant time only.
    pub authcode: [u8; 32],
}

/// What the authenticator is computed over: the session's exporter, the ticket's identifier and
/// its end in little-endian.
pub open spec fn auth_message(ticket: Ticket, exporter: Seq<u8>) -> Seq<u8> {
    exporter + ticket.ticket_id@ + vstd::bytes::spec_u64_to_le_bytes(ticket.not_after)
}

/// The authenticator of a ticket in a session.
pub open spec fn authcode_of(ticket: Ticket, exporter: Seq<u8>) -> Seq<u8> {
    crate::crypto::hmac_sha256_of(ticket.auth_key.0@, auth_message(ticket, exporter))
}

/// Puts together what the authenticator is computed over.
pub fn build_auth_message(ticket: &Ticket, exporter: &[u8]) -> (r: Vec<u8>)
    ensures
        r@ == auth_message(*ticket, exporter@),
{
    let mut message: Vec<u8> = vstd::slice::slice_to_vec(exporter);
    let mut after: Vec<u8> = vstd::bytes::u64_to_le_bytes(ticket.not_after);
    message.extend_from_slice(ticket.ticket_id.as_slice());
    assert(message@ =~= exporter@ + ticket.ticket_id@);
    message.append(&mut after);
    message
}

impl AuthRecord {
    /// Whether this is the record of a ticket in a session.
    pub open spec fn is_of(self, ticket: Ticket, exporter: Seq<u8>) -> bool {
        self.ticket_id@ == ticket.ticket_id@ && self.authcode@ == authcode_of(ticket, exporter)
    }

    /// The payload of the frame that carries a record.
    pub open spec fn payload(self) -> Seq<u8> {
        self.ticket_id@ + self.authcode@
    }

    /// The frame that carries a record.
    pub open spec fn wire(self) -> Seq<u8> {
        seq![FRAME_TYPE_AUTH] + crate::protocol::varint::varint_of(AUTH_PAYLOAD_LEN as nat)
            + self.payload()
    }

    /// Build an auth record from a ticket and TLS exporter output.
    ///
    /// `exporter` must be exactly 32 bytes.
    pub fn from_ticket(ticket: &Ticket, exporter: &[u8]) -> (r: Self)
        requires
            exporter@.len() == EXPORTER_LEN,
        ensures
            r.ticket_id == ticket.ticket_id,
            r.authcode@ == authcode_of(*ticket, exporter@),
            r.is_of(*ticket, exporter@),
    {
        let message: Vec<u8> = build_auth_message(ticket, exporter);
        AuthRecord {
            ticket_id: ticket.ticket_id,
            authcode: hmac_sha256(ticket.auth_key.as_bytes().as_slice(), message.as_slice()),
        }
    }

    /// Verify this auth record against the given ticket and exporter.
    ///
    /// Uses **constant-time comparison** on the authcode bytes.
    /// Returns `true` if the authcode matches.
    pub fn verify(&self, ticket: &Ticket, exporter: &[u8]) -> (r: bool)
        requires
            self.ticket_id@ == ticket.ticket_id@ ==> exporter@.len() == EXPORTER_LEN,
        ensures
            r == self.is_of(*ticket, exporter@),
    {
        if !same_id(&self.ticket_id, &ticket.ticket_id) {
            return false;
        }
        let expected: AuthRecord = AuthRecord::from_ticket(ticket, exporter);
        ct_eq(&self.authcode, &expected.authcode)
    }

    /// Encode this auth record as a wire-format frame.
    ///
    /// Returns: `FRAME_TYPE_AUTH || varint(payload_len) || ticket_id || authcode`
    pub fn encode(&self) -> (r: Bytes)
        ensures
            crate::buffers::bytes_in(r) == self.wire(),
    {
        let mut buf: BytesMut = new_buffer(1 + 2 + AUTH_PAYLOAD_LEN);
        let len: Vec<u8> = encode_varint_vec(AUTH_PAYLOAD_LEN as u64);
        put_byte(&mut buf, FRAME_TYPE_AUTH);
        put_bytes(&mut buf, len.as_slice());
        put_bytes(&mut buf, self.ticket_id.as_slice());
        put_bytes(&mut buf, self.authcode.as_slice());
        assert(crate::buffers::buffered_in(buf) =~= self.wire());
        freeze(buf)
    }

    /// The payload of the frame that carries this record.
    pub fn to_payload(&self) -> (r: Bytes)
        ensures
            crate::buffers::bytes_in(r) == self.payload(),
    {
        let mut buf: BytesMut = new_buffer(AUTH_PAYLOAD_LEN);
        put_bytes(&mut buf, self.ticket_id.as_slice());
        put_bytes(&mut buf, self.authcode.as_slice());
        assert(crate::buffers::buffered_in(buf) =~= self.payload());
        freeze(buf)
    }

    /// Read a record off the payload of an AUTH frame, which is exactly as long as one.
    pub fn from_payload(payload: &[u8]) -> (r: Option<Self>)
        ensures
            r is Some <==> payload@.len() == AUTH_PAYLOAD_LEN,
            r matches Some(record) ==> record.payload() == payload@,
    {
        if payload.len() != AUTH_PAYLOAD_LEN {
            return None;
        }
        let record: AuthRecord = AuthRecord {
            ticket_id: take_16(payload),
            authcode: take_32(vstd::slice::slice_subrange(payload, 16, 48)),
        };
        assert(record.payload() =~= payload@);
        Some(record)
    }

    /// Decode an auth record from a wire-format frame, and take off what was read.
    ///
    /// Expects: `FRAME_TYPE_AUTH || varint(payload_len) || ticket_id[16] || authcode[32]`
    ///
    /// Returns `None` if the frame type is wrong, the payload is malformed,
    /// or there are not enough bytes.
    pub fn decode(data: &mut &[u8]) -> (r: Option<Self>)
        ensures
            r is Some <==> holds_record(old(data)@),
            r matches Some(record) ==> {
                let at = record_start(old(data)@);
                &&& record.payload() == old(data)@.subrange(at, at + AUTH_PAYLOAD_LEN)
                &&& final(data)@ == old(data)@.skip(at + AUTH_PAYLOAD_LEN)
            },
            r is None ==> final(data)@ == old(data)@.skip(bytes_tried(old(data)@)),
    {
        let all: &[u8] = *data;
        if all.len() == 0 {
            assert(data@ =~= all@.skip(0));
            return None;
        }
        let mut rest: &[u8] = vstd::slice::slice_subrange(all, 1, all.len());
        assert(rest@ =~= all@.skip(1));
        if all[0] != FRAME_TYPE_AUTH {
            *data = rest;
            return None;
        }
        let len: Option<(u64, usize)> = decode_varint(&mut rest);
        *data = rest;
        assert(data@ =~= all@.skip(record_start(all@)));
        match len {
            Some((payload_len, _)) => {
                if payload_len != AUTH_PAYLOAD_LEN as u64 || rest.len() < AUTH_PAYLOAD_LEN {
                    return None;
                }
            },
            None => {
                return None;
            },
        }
        let record: AuthRecord = AuthRecord {
            ticket_id: take_16(rest),
            authcode: take_32(vstd::slice::slice_subrange(rest, 16, 48)),
        };
        *data = vstd::slice::slice_subrange(rest, 48, rest.len());
        proof {
            let at = record_start(all@);
            assert(record.payload() =~= all@.subrange(at, at + AUTH_PAYLOAD_LEN));
            assert(data@ =~= all@.skip(at + AUTH_PAYLOAD_LEN));
        }
        Some(record)
    }

    /// Decode an auth record from a byte slice.
    pub fn decode_slice(data: &[u8]) -> (r: Option<Self>)
        ensures
            r is Some <==> holds_record(data@),
            r matches Some(record) ==> record.payload() == data@.subrange(
                record_start(data@),
                record_start(data@) + AUTH_PAYLOAD_LEN,
            ),
    {
        let mut buf: &[u8] = data;
        AuthRecord::decode(&mut buf)
    }
}

/// Where the payload of a frame starts: behind the type and the length.
pub open spec fn record_start(data: Seq<u8>) -> int {
    1 + crate::protocol::varint::bytes_taken(data.skip(1))
}

/// Whether there is a whole auth record at the front of some bytes.
pub open spec fn holds_record(data: Seq<u8>) -> bool {
    &&& data.len() > 0
    &&& data[0] == FRAME_TYPE_AUTH
    &&& crate::protocol::varint::varint_at(data.skip(1)) matches Some((len, _)) && len
        == AUTH_PAYLOAD_LEN
    &&& data.len() - record_start(data) >= AUTH_PAYLOAD_LEN
}

/// How many bytes a failed attempt reads: the type, and the length if the type is right.
pub open spec fn bytes_tried(data: Seq<u8>) -> int {
    if data.len() == 0 {
        0
    } else if data[0] != FRAME_TYPE_AUTH {
        1
    } else {
        record_start(data)
    }
}

/// Whether two identifiers are the same.
fn same_id(a: &[u8; 16], b: &[u8; 16]) -> (r: bool)
    ensures
        r == (a@ == b@),
{
    let mut i: usize = 0;
    while i < 16
        invariant
            i <= 16,
            forall|k: int| 0 <= k < i ==> a@[k] == b@[k],
        decreases 16 - i,
    {
        if a[i] != b[i] {
            assert(a@[i as int] != b@[i as int]);
            return false;
        }
        i = i + 1;
    }
    assert(a@ =~= b@);
    true
}

/// Verify an authcode against an expected value using constant-time comparison.
///
/// This is the **only** way authcode bytes should ever be compared.
pub fn constant_time_verify(actual: &[u8; 32], expected: &[u8; 32]) -> (r: bool)
    ensures
        r == (actual@ == expected@),
{
    ct_eq(actual, expected)
}

/// What the client builds from its ticket, the relay that knows the ticket accepts in the same
/// session, and no other record than that one.
pub proof fn law_a_record_verifies_in_its_session(
    record: AuthRecord,
    other: AuthRecord,
    ticket: Ticket,
    exporter: Seq<u8>,
)
    requires
        record.ticket_id == ticket.ticket_id,
        record.authcode@ == authcode_of(ticket, exporter),
    ensures
        record.is_of(ticket, exporter),
        other.is_of(ticket, exporter) <==> other == record,
{
    if other.is_of(ticket, exporter) {
        law_a_payload_is_of_one_record(other, record);
    }
}

/// A tampered record is rejected: of all records with the ticket's identifier exactly one
/// verifies in a session.
pub proof fn law_a_tampered_record_is_rejected(
    record: AuthRecord,
    other: AuthRecord,
    ticket: Ticket,
    exporter: Seq<u8>,
)
    requires
        record.is_of(ticket, exporter),
        other.authcode@ != record.authcode@ || other.ticket_id@ != record.ticket_id@,
    ensures
        !other.is_of(ticket, exporter),
{
}

/// A record is bound to its session: what is authenticated differs for every exporter, identifier
/// and end of validity. So a record that verifies in a second session, or for a second ticket with
/// the same key, is one for which two different messages have the same code.
pub proof fn law_a_record_is_bound_to_its_session(
    record: AuthRecord,
    a: Ticket,
    b: Ticket,
    exporter_a: Seq<u8>,
    exporter_b: Seq<u8>,
)
    requires
        exporter_a.len() == EXPORTER_LEN,
        exporter_b.len() == EXPORTER_LEN,
        a.auth_key.0@ == b.auth_key.0@,
        exporter_a != exporter_b || a.ticket_id@ != b.ticket_id@ || a.not_after != b.not_after,
    ensures
        auth_message(a, exporter_a) != auth_message(b, exporter_b),
        record.is_of(a, exporter_a) && record.is_of(b, exporter_b)
            ==> crate::crypto::hmac_sha256_of(a.auth_key.0@, auth_message(a, exporter_a))
            == crate::crypto::hmac_sha256_of(a.auth_key.0@, auth_message(b, exporter_b)),
{
    vstd::bytes::lemma_auto_spec_u64_to_from_le_bytes();
    let (m, n) = (auth_message(a, exporter_a), auth_message(b, exporter_b));
    if m == n {
        assert(exporter_a =~= m.subrange(0, 32) && exporter_b =~= n.subrange(0, 32));
        assert(a.ticket_id@ =~= m.subrange(32, 48) && b.ticket_id@ =~= n.subrange(32, 48));
        let (x, y) = (
            vstd::bytes::spec_u64_to_le_bytes(a.not_after),
            vstd::bytes::spec_u64_to_le_bytes(b.not_after),
        );
        assert(x =~= m.subrange(48, 56) && y =~= n.subrange(48, 56));
        assert(vstd::bytes::spec_u64_from_le_bytes(x) == a.not_after);
        assert(vstd::bytes::spec_u64_from_le_bytes(y) == b.not_after);
    }
}

/// Reading gives back what was written, whatever follows it.
pub proof fn law_a_record_survives_the_wire(record: AuthRecord, behind: Seq<u8>)
    ensures
        ({
            let wire = record.wire() + behind;
            let at = record_start(wire);
            &&& holds_record(wire)
            &&& wire.subrange(at, at + AUTH_PAYLOAD_LEN) == record.payload()
            &&& wire.skip(at + AUTH_PAYLOAD_LEN) == behind
        }),
{
    let wire = record.wire() + behind;
    let tail = record.payload() + behind;
    let len = crate::protocol::varint::varint_of(AUTH_PAYLOAD_LEN as nat);
    crate::protocol::varint::law_reading_gives_back_what_was_written(
        AUTH_PAYLOAD_LEN as u64,
        tail,
    );
    assert(wire.skip(1) =~= len + tail);
    let at = record_start(wire);
    assert((len + tail).skip(at - 1) == tail);
    assert(wire.skip(at) =~= (len + tail).skip(at - 1));
    assert(wire.subrange(at, at + AUTH_PAYLOAD_LEN) =~= tail.take(AUTH_PAYLOAD_LEN as int));
    assert(tail.take(AUTH_PAYLOAD_LEN as int) =~= record.payload());
    assert(wire.skip(at + AUTH_PAYLOAD_LEN) =~= tail.skip(AUTH_PAYLOAD_LEN as int));
    assert(tail.skip(AUTH_PAYLOAD_LEN as int) =~= behind);
}

/// A payload belongs to one record only.
pub proof fn law_a_payload_is_of_one_record(a: AuthRecord, b: AuthRecord)
    requires
        a.payload() == b.payload(),
    ensures
        a == b,
{
    assert(a.ticket_id@ =~= a.payload().take(16) && b.ticket_id@ =~= b.payload().take(16));
    assert(a.authcode@ =~= a.payload().skip(16) && b.authcode@ =~= b.payload().skip(16));
    assert(a.ticket_id =~= b.ticket_id) by {
        assert forall|i: int| 0 <= i < 16 implies a.ticket_id[i] == b.ticket_id[i] by {
            assert(a.ticket_id@[i] == b.ticket_id@[i]);
        }
    }
    assert(a.authcode =~= b.authcode) by {
        assert forall|i: int| 0 <= i < 32 implies a.authcode[i] == b.authcode[i] by {
            assert(a.authcode@[i] == b.authcode@[i]);
        }
    }
}

/// Where the parts of an AUTH frame lie: a zero, the length 48, the identifier and the code, fifty
/// bytes in all.
pub proof fn law_the_parts_of_a_frame_have_their_places(record: AuthRecord)
    ensures
        record.wire().len() == 50,
        record.wire()[0] == 0,
        record.wire()[1] == 48,
        record.wire().subrange(2, 18) == record.ticket_id@,
        record.wire().subrange(18, 50) == record.authcode@,
        record.payload().len() == 48,
        record.payload().take(16) == record.ticket_id@,
        record.payload().skip(16) == record.authcode@,
{
    reveal_with_fuel(crate::protocol::varint::varint_of, 2);
    let wire = record.wire();
    assert(wire.subrange(2, 18) =~= record.ticket_id@);
    assert(wire.subrange(18, 50) =~= record.authcode@);
    assert(record.payload().take(16) =~= record.ticket_id@);
    assert(record.payload().skip(16) =~= record.authcode@);
}

/// What is authenticated: the exporter, behind it the identifier of the ticket, behind that the
/// end of its time. The code is the HMAC-SHA256 of that under the ticket's key, and a record is
/// the ticket's exactly if it has the ticket's identifier and that code.
pub proof fn law_the_code_covers_session_ticket_and_end(
    record: AuthRecord,
    ticket: Ticket,
    exporter: Seq<u8>,
)
    requires
        exporter.len() == 32,
    ensures
        auth_message(ticket, exporter).len() == 56,
        auth_message(ticket, exporter).subrange(0, 32) == exporter,
        auth_message(ticket, exporter).subrange(32, 48) == ticket.ticket_id@,
        auth_message(ticket, exporter).subrange(48, 56) == vstd::bytes::spec_u64_to_le_bytes(
            ticket.not_after,
        ),
        record.is_of(ticket, exporter) <==> record.ticket_id@ == ticket.ticket_id@
            && record.authcode@ == crate::crypto::hmac_sha256_of(
            ticket.auth_key.0@,
            exporter + ticket.ticket_id@ + vstd::bytes::spec_u64_to_le_bytes(ticket.not_after),
        ),
{
    vstd::bytes::lemma_auto_spec_u64_to_from_le_bytes();
    let message = auth_message(ticket, exporter);
    assert(message.subrange(0, 32) =~= exporter);
    assert(message.subrange(32, 48) =~= ticket.ticket_id@);
    assert(message.subrange(48, 56) =~= vstd::bytes::spec_u64_to_le_bytes(ticket.not_after));
}

/// Which bytes hold a record. Fifty bytes or more that start with a zero and a 48 do, and the
/// record starts at the third. Nothing else of which the second byte ends the length does, nor
/// anything that starts with another byte or is shorter than fifty.
pub proof fn law_a_record_is_told_by_its_first_bytes(data: Seq<u8>)
    ensures
        data.len() >= 50 && data[0] == 0 && data[1] == 48 ==> holds_record(data) && record_start(
            data,
        ) == 2,
        data.len() < 50 ==> !holds_record(data),
        data.len() > 0 && data[0] != 0 ==> !holds_record(data) && bytes_tried(data) == 1,
        data.len() >= 2 && data[1] < 128 && data[1] != 48 ==> !holds_record(data),
        data.len() >= 2 && data[0] == 0 && data[1] < 128 ==> bytes_tried(data) == 2,
        data.len() == 0 ==> bytes_tried(data) == 0,
{
    if data.len() > 1 {
        let rest = data.skip(1);
        assert(rest[0] == data[1]);
        crate::protocol::varint::law_a_number_is_read_byte_by_byte(rest);
    } else if data.len() == 1 {
        assert(data.skip(1) =~= Seq::empty());
    }
}

}
