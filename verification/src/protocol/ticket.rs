//! Ticket types: per-session authorisation tokens issued over the manifest channel.
//!
//! A ticket does **not** identify the client; it is fungible and can be used
//! from any IP. The `ticket_id` is an opaque server-side index into the
//! ticket store.
//!
//! # Wire format (manifest channel: JSON/base64)
//! ```text
//! ticket = {
//!   ticket_id:  16 bytes (base64),
//!   auth_key:   32 bytes (base64),
//!   not_before: u64 (Unix seconds),
//!   not_after:  u64 (Unix seconds),
//!   suite_id:   u8,
//! }
//! ```
//!
//! # Security
//! - `auth_key` is zeroised on drop
//! - Tickets are short-lived
//! - `ticket_id` is random, not derived from client identity

use crate::crypto::wipe;
use vstd::prelude::*;

verus! {

/// Length of the ticket identifier in bytes.
pub const TICKET_ID_LEN: usize = 16;

/// Length of the auth key in bytes.
pub const AUTH_KEY_LEN: usize = 32;

/// Length of the serialised ticket in bytes.
pub const TICKET_WIRE_LEN: usize = 65;

/// The per-ticket PSK (32 bytes). Wrapped to ensure zeroisation.
pub struct AuthKey(pub [u8; 32]);

impl AuthKey {
    /// Create a new AuthKey from raw bytes.
    pub fn new(bytes: [u8; 32]) -> (r: Self)
        ensures
            r.0 == bytes,
    {
        AuthKey(bytes)
    }

    /// Access the raw key bytes.
    pub fn as_bytes(&self) -> (r: &[u8; 32])
        ensures
            *r == self.0,
    {
        &self.0
    }

    /// Overwrite the key with zeros.
    pub fn zeroize(&mut self)
        ensures
            final(self).0@ == Seq::new(32, |i: int| 0u8),
    {
        wipe(&mut self.0);
    }

    /// What the key shows of itself for debugging: nothing but its name, whatever it is.
    pub fn debug_text(&self) -> (r: &'static str)
        ensures
            r@ == "AuthKey(\"[redacted]\")"@,
    {
        "AuthKey(\"[redacted]\")"
    }
}

impl AsRef<[u8]> for AuthKey {
    fn as_ref(&self) -> (r: &[u8])
        ensures
            r@ == self.0@,
    {
        self.0.as_slice()
    }
}

impl Clone for AuthKey {
    fn clone(&self) -> (r: Self)
        ensures
            r == *self,
    {
        AuthKey(self.0)
    }
}

impl Drop for AuthKey {
    fn drop(&mut self)
        opens_invariants none
        no_unwind
    {
        wipe(&mut self.0);
    }
}

/// A veil-front ticket, issued over the authenticated manifest channel.
///
/// The ticket authorises the holder to open a tunnel. It is **not** bound to
/// any specific client: fungibility prevents correlation across IPs.
pub struct Ticket {
    /// Opaque 16-byte index into the server ticket store.
    pub ticket_id: [u8; 16],
    /// Per-ticket PSK, used as HMAC key for auth record derivation.
    pub auth_key: AuthKey,
    /// Unix timestamp: ticket is not valid before this time.
    pub not_before: u64,
    /// Unix timestamp: ticket is not valid after this time.
    pub not_after: u64,
    /// Crypto suite selector (CLASSIC v1 = 0x01).
    pub suite_id: u8,
}

impl Clone for Ticket {
    fn clone(&self) -> (r: Self)
        ensures
            r == *self,
    {
        Ticket {
            ticket_id: self.ticket_id,
            auth_key: self.auth_key.clone(),
            not_before: self.not_before,
            not_after: self.not_after,
            suite_id: self.suite_id,
        }
    }
}

/// The system clock reads a time before the Unix epoch.
#[derive(Debug, Clone, Copy, PartialEq, Eq, Structural)]
pub struct ClockBeforeEpoch;

/// `SystemTime::elapsed` on `UNIX_EPOCH`, in whole seconds: what the system clock reads. Nothing
/// is stated of the time.
#[verifier::external_body]
pub(crate) fn unix_now() -> (r: Result<u64, ClockBeforeEpoch>) {
    match std::time::UNIX_EPOCH.elapsed() {
        Ok(d) => Ok(d.as_secs()),
        Err(_) => Err(ClockBeforeEpoch),
    }
}

/// Whether this is a reading that the system clock gave: one that a call of `unix_now` can return.
/// No other value is known to be one, whatever is computed from it.
pub closed spec fn is_reading(reading: Result<u64, ClockBeforeEpoch>) -> bool {
    call_ensures(unix_now, (), reading)
}

/// A reading is what the system clock gave and nothing else: no other value counts as one.
pub(crate) proof fn law_a_reading_comes_from_the_clock(reading: Result<u64, ClockBeforeEpoch>)
    ensures
        is_reading(reading) <==> call_ensures(unix_now, (), reading),
{
}

/// Asks a clock once and hands its reading on.
fn ask<F: Fn() -> Result<u64, ClockBeforeEpoch>>(clock: F) -> (r: Result<u64, ClockBeforeEpoch>)
    requires
        call_requires(clock, ()),
    ensures
        call_ensures(clock, (), r),
{
    clock()
}

/// Reads the system clock: the reading itself, nothing added or taken away.
pub(crate) fn read_clock() -> (r: Result<u64, ClockBeforeEpoch>)
    ensures
        is_reading(r),
{
    ask(unix_now)
}

impl Ticket {
    /// Whether the ticket is valid at the given Unix timestamp: both ends of its time included.
    pub open spec fn valid_at(self, now_secs: u64) -> bool {
        self.not_before <= now_secs <= self.not_after
    }

    /// Check whether the ticket is valid at the given Unix timestamp.
    pub fn is_valid_at(&self, now_secs: u64) -> (r: bool)
        ensures
            r == self.valid_at(now_secs),
    {
        now_secs >= self.not_before && now_secs <= self.not_after
    }

    /// Check whether the ticket is valid by what a clock reads: at the time it reads, and with the
    /// clock's own failure where it reads none.
    pub fn is_valid_by(&self, reading: Result<u64, ClockBeforeEpoch>) -> (r: Result<
        bool,
        ClockBeforeEpoch,
    >)
        ensures
            r == match reading {
                Ok(now) => Ok::<bool, ClockBeforeEpoch>(self.valid_at(now)),
                Err(e) => Err(e),
            },
    {
        match reading {
            Ok(now) => Ok(self.is_valid_at(now)),
            Err(e) => Err(e),
        }
    }

    /// Check whether the ticket is currently valid: at the time that the system clock reads. There
    /// is no saying where that is before the Unix epoch.
    pub fn is_valid_now(&self) -> (r: Result<bool, ClockBeforeEpoch>)
        ensures
            r matches Ok(valid) ==> exists|now: u64| valid == #[trigger] self.valid_at(now),
            exists|reading: Result<u64, ClockBeforeEpoch>| #[trigger]
                is_reading(reading) && match reading {
                    Ok(now) => r == Ok::<bool, ClockBeforeEpoch>(
                        self.not_before <= now <= self.not_after,
                    ),
                    Err(e) => r == Err::<bool, ClockBeforeEpoch>(e),
                },
    {
        let reading: Result<u64, ClockBeforeEpoch> = read_clock();
        assert(is_reading(reading));
        self.is_valid_by(reading)
    }

    /// The ticket as it is transported: identifier, key, the two timestamps in little-endian, suite.
    pub open spec fn wire(self) -> Seq<u8> {
        self.ticket_id@ + self.auth_key.0@ + vstd::bytes::spec_u64_to_le_bytes(self.not_before)
            + vstd::bytes::spec_u64_to_le_bytes(self.not_after) + seq![self.suite_id]
    }
}

/// Serialise a ticket to a byte blob (for manifest channel transport).
///
/// Format: `ticket_id[16] || auth_key[32] || not_before[8] || not_after[8] || suite_id[1]`
/// Total: 65 bytes.
pub fn ticket_to_bytes(ticket: &Ticket) -> (r: [u8; 65])
    ensures
        r@ == ticket.wire(),
{
    let before: Vec<u8> = vstd::bytes::u64_to_le_bytes(ticket.not_before);
    let after: Vec<u8> = vstd::bytes::u64_to_le_bytes(ticket.not_after);
    let mut out: [u8; 65] = [0; 65];
    let ghost wire = ticket.wire();
    proof {
        vstd::bytes::lemma_auto_spec_u64_to_from_le_bytes();
        assert(wire.len() == 65);
    }
    let mut i: usize = 0;
    while i < 65
        invariant
            i <= 65,
            wire == ticket.wire(),
            wire.len() == 65,
            before@ == vstd::bytes::spec_u64_to_le_bytes(ticket.not_before),
            after@ == vstd::bytes::spec_u64_to_le_bytes(ticket.not_after),
            before@.len() == 8,
            after@.len() == 8,
            forall|k: int| 0 <= k < i ==> out@[k] == wire[k],
        decreases 65 - i,
    {
        let byte: u8 = if i < 16 {
            ticket.ticket_id[i]
        } else if i < 48 {
            ticket.auth_key.0[i - 16]
        } else if i < 56 {
            before[i - 48]
        } else if i < 64 {
            after[i - 56]
        } else {
            ticket.suite_id
        };
        assert(byte == wire[i as int]);
        out[i] = byte;
        i = i + 1;
    }
    assert(out@ =~= wire);
    out
}

/// Copies the first sixteen bytes of a slice.
pub(crate) fn take_16(data: &[u8]) -> (r: [u8; 16])
    requires
        data@.len() >= 16,
    ensures
        r@ == data@.take(16),
{
    let mut out: [u8; 16] = [0; 16];
    let mut i: usize = 0;
    while i < 16
        invariant
            i <= 16,
            data@.len() >= 16,
            forall|k: int| 0 <= k < i ==> out@[k] == data@[k],
        decreases 16 - i,
    {
        out[i] = data[i];
        i = i + 1;
    }
    assert(out@ =~= data@.take(16));
    out
}

/// Copies the first thirty-two bytes of a slice.
pub(crate) fn take_32(data: &[u8]) -> (r: [u8; 32])
    requires
        data@.len() >= 32,
    ensures
        r@ == data@.take(32),
{
    let mut out: [u8; 32] = [0; 32];
    let mut i: usize = 0;
    while i < 32
        invariant
            i <= 32,
            data@.len() >= 32,
            forall|k: int| 0 <= k < i ==> out@[k] == data@[k],
        decreases 32 - i,
    {
        out[i] = data[i];
        i = i + 1;
    }
    assert(out@ =~= data@.take(32));
    out
}

/// Deserialise a ticket from a 65-byte blob.
///
/// Returns `None` if the slice is not exactly 65 bytes.
pub fn ticket_from_bytes(data: &[u8]) -> (r: Option<Ticket>)
    ensures
        r is Some <==> data@.len() == TICKET_WIRE_LEN,
        r matches Some(ticket) ==> ticket.wire() == data@,
{
    if data.len() != TICKET_WIRE_LEN {
        return None;
    }
    let id: &[u8] = vstd::slice::slice_subrange(data, 0, 16);
    let key: &[u8] = vstd::slice::slice_subrange(data, 16, 48);
    let before: &[u8] = vstd::slice::slice_subrange(data, 48, 56);
    let after: &[u8] = vstd::slice::slice_subrange(data, 56, 64);
    let ticket: Ticket = Ticket {
        ticket_id: take_16(id),
        auth_key: AuthKey::new(take_32(key)),
        not_before: vstd::bytes::u64_from_le_bytes(before),
        not_after: vstd::bytes::u64_from_le_bytes(after),
        suite_id: data[64],
    };
    proof {
        vstd::bytes::lemma_auto_spec_u64_to_from_le_bytes();
        assert(vstd::bytes::spec_u64_to_le_bytes(ticket.not_before) == before@);
        assert(vstd::bytes::spec_u64_to_le_bytes(ticket.not_after) == after@);
        assert(ticket.wire() =~= data@);
    }
    Some(ticket)
}

/// A ticket is determined by its bytes: what is read back from them is the ticket that was
/// written.
pub proof fn law_a_ticket_survives_transport(ticket: Ticket, restored: Ticket)
    requires
        restored.wire() == ticket.wire(),
    ensures
        restored == ticket,
        ticket.wire().len() == TICKET_WIRE_LEN,
{
    vstd::bytes::lemma_auto_spec_u64_to_from_le_bytes();
    let (a, b) = (ticket.wire(), restored.wire());
    assert(a.len() == 65 && b.len() == 65);
    assert(ticket.ticket_id@ =~= a.subrange(0, 16));
    assert(restored.ticket_id@ =~= b.subrange(0, 16));
    assert(ticket.auth_key.0@ =~= a.subrange(16, 48));
    assert(restored.auth_key.0@ =~= b.subrange(16, 48));
    assert(vstd::bytes::spec_u64_to_le_bytes(ticket.not_before) =~= a.subrange(48, 56));
    assert(vstd::bytes::spec_u64_to_le_bytes(restored.not_before) =~= b.subrange(48, 56));
    assert(vstd::bytes::spec_u64_to_le_bytes(ticket.not_after) =~= a.subrange(56, 64));
    assert(vstd::bytes::spec_u64_to_le_bytes(restored.not_after) =~= b.subrange(56, 64));
    assert(a[64] == ticket.suite_id && b[64] == restored.suite_id);
    assert(ticket.ticket_id =~= restored.ticket_id) by {
        assert forall|i: int| 0 <= i < 16 implies ticket.ticket_id[i] == restored.ticket_id[i] by {
            assert(ticket.ticket_id@[i] == restored.ticket_id@[i]);
        }
    }
    assert(ticket.auth_key.0 =~= restored.auth_key.0) by {
        assert forall|i: int| 0 <= i < 32 implies ticket.auth_key.0[i] == restored.auth_key.0[i] by {
            assert(ticket.auth_key.0@[i] == restored.auth_key.0@[i]);
        }
    }
    let (x, y) = (ticket.not_before, restored.not_before);
    assert(vstd::bytes::spec_u64_from_le_bytes(vstd::bytes::spec_u64_to_le_bytes(x)) == x);
    assert(vstd::bytes::spec_u64_from_le_bytes(vstd::bytes::spec_u64_to_le_bytes(y)) == y);
    let (v, w) = (ticket.not_after, restored.not_after);
    assert(vstd::bytes::spec_u64_from_le_bytes(vstd::bytes::spec_u64_to_le_bytes(v)) == v);
    assert(vstd::bytes::spec_u64_from_le_bytes(vstd::bytes::spec_u64_to_le_bytes(w)) == w);
}

/// Where the parts of a ticket lie in its 65 bytes: the identifier in front, then the key, the
/// beginning of its time, the end, both in little-endian, and the suite.
pub proof fn law_the_parts_of_a_ticket_have_their_places(ticket: Ticket)
    ensures
        ticket.wire().len() == 65,
        ticket.wire().subrange(0, 16) == ticket.ticket_id@,
        ticket.wire().subrange(16, 48) == ticket.auth_key.0@,
        ticket.wire().subrange(48, 56) == vstd::bytes::spec_u64_to_le_bytes(ticket.not_before),
        ticket.wire().subrange(56, 64) == vstd::bytes::spec_u64_to_le_bytes(ticket.not_after),
        ticket.wire()[64] == ticket.suite_id,
{
    vstd::bytes::lemma_auto_spec_u64_to_from_le_bytes();
    let wire = ticket.wire();
    assert(wire.subrange(0, 16) =~= ticket.ticket_id@);
    assert(wire.subrange(16, 48) =~= ticket.auth_key.0@);
    assert(wire.subrange(48, 56) =~= vstd::bytes::spec_u64_to_le_bytes(ticket.not_before));
    assert(wire.subrange(56, 64) =~= vstd::bytes::spec_u64_to_le_bytes(ticket.not_after));
}

/// A ticket is valid from the second it begins to the second it ends, both included, and at no
/// other time.
pub proof fn law_a_ticket_is_valid_in_its_time_only(ticket: Ticket, now: u64)
    ensures
        ticket.valid_at(now) <==> now >= ticket.not_before && now <= ticket.not_after,
        ticket.not_before <= ticket.not_after ==> ticket.valid_at(ticket.not_before)
            && ticket.valid_at(ticket.not_after),
        ticket.not_after < ticket.not_before ==> !ticket.valid_at(now),
{
}

}
