//! Ticket store: in-memory ticket validation.
//!
//! Tickets are loaded from a JSON text at startup and validated in memory.

use crate::crypto::{ct_eq, hmac_sha256};
use crate::encoding::{base64_decode, hex_encode, json_strings};
use crate::protocol::auth::build_auth_message;
use crate::protocol::ticket::{read_clock, ticket_from_bytes, ClockBeforeEpoch, Ticket};
use vstd::hash_map::StringHashMap;
use vstd::prelude::*;

verus! {

/// A veil-front ticket store.
pub struct TicketStore {
    /// Map from ticket_id (16 bytes as hex) to the full ticket.
    tickets: StringHashMap<Ticket>,
}

impl View for TicketStore {
    type V = Map<Seq<u8>, Ticket>;

    closed spec fn view(&self) -> Map<Seq<u8>, Ticket> {
        Map::new(
            |id: Seq<u8>| self.tickets@.contains_key(crate::encoding::hex_of(id)),
            |id: Seq<u8>| self.tickets@[crate::encoding::hex_of(id)],
        )
    }
}

/// Compute the HMAC-SHA256 authcode for a ticket + exporter pair.
///
/// `authcode = HMAC-SHA256(auth_key, exporter || ticket_id || not_after)`
pub fn compute_authcode(ticket: &Ticket, exporter: &[u8; 32]) -> (r: [u8; 32])
    ensures
        r@ == crate::protocol::auth::authcode_of(*ticket, exporter@),
{
    let message: Vec<u8> = build_auth_message(ticket, exporter.as_slice());
    hmac_sha256(ticket.auth_key.as_bytes().as_slice(), message.as_slice())
}

/// Whether a ticket admits its holder at a time, in a session: it is valid then, and the code is
/// the ticket's code in that session.
pub open spec fn admits(ticket: Ticket, code: Seq<u8>, exporter: Seq<u8>, now: u64) -> bool {
    ticket.valid_at(now) && code == crate::protocol::auth::authcode_of(ticket, exporter)
}

/// The ticket under which a record is accepted, if it is.
pub open spec fn accepted(
    store: Map<Seq<u8>, Ticket>,
    id: Seq<u8>,
    code: Seq<u8>,
    exporter: Seq<u8>,
    now: u64,
) -> Option<Ticket> {
    if store.contains_key(id) && admits(store[id], code, exporter, now) {
        Some(store[id])
    } else {
        None
    }
}

/// What a record is answered by what a clock reads. An unknown ticket is refused without a look at
/// the clock; of a known one nothing can be said where the clock has no reading.
pub open spec fn judged(
    store: Map<Seq<u8>, Ticket>,
    id: Seq<u8>,
    code: Seq<u8>,
    exporter: Seq<u8>,
    reading: Result<u64, ClockBeforeEpoch>,
) -> Result<Option<Ticket>, ClockBeforeEpoch> {
    if !store.contains_key(id) {
        Ok(None)
    } else {
        match reading {
            Ok(now) => Ok(accepted(store, id, code, exporter, now)),
            Err(e) => Err(e),
        }
    }
}

/// Why tickets could not be loaded.
#[derive(Debug)]
pub enum LoadError {
    /// The text is no JSON array of strings.
    Json(String),
    /// One of the strings is no base64.
    Base64(String),
}

/// Why tickets could not be loaded, in words.
pub enum LoadErrorView {
    Json(Seq<char>),
    Base64(Seq<char>),
}

impl View for LoadError {
    type V = LoadErrorView;

    open spec fn view(&self) -> LoadErrorView {
        match *self {
            LoadError::Json(e) => LoadErrorView::Json(e@),
            LoadError::Base64(e) => LoadErrorView::Base64(e@),
        }
    }
}

/// The ticket that a blob stands for.
pub open spec fn ticket_in(raw: Seq<u8>) -> Ticket {
    choose|t: Ticket| t.wire() == raw
}

/// A store with one blob more: its ticket, if the blob has the length of one.
pub open spec fn with_blob(store: Map<Seq<u8>, Ticket>, raw: Seq<u8>) -> Map<Seq<u8>, Ticket> {
    if raw.len() == crate::protocol::ticket::TICKET_WIRE_LEN {
        store.insert(ticket_in(raw).ticket_id@, ticket_in(raw))
    } else {
        store
    }
}

/// What loading base64 blobs gives: the store, and how many tickets were loaded or why it stopped.
/// Blobs that are no ticket are passed over; those before a blob that is no base64 stay loaded.
pub open spec fn loaded(store: Map<Seq<u8>, Ticket>, blobs: Seq<Seq<char>>) -> (
    Map<Seq<u8>, Ticket>,
    Result<int, Seq<char>>,
)
    decreases blobs.len(),
{
    if blobs.len() == 0 {
        (store, Ok(0))
    } else {
        let (before, outcome) = loaded(store, blobs.drop_last());
        match outcome {
            Err(e) => (before, Err(e)),
            Ok(count) => match crate::encoding::base64_of(blobs.last()) {
                Err(e) => (before, Err(e)),
                Ok(raw) => (
                    with_blob(before, raw),
                    Ok(
                        if raw.len() == crate::protocol::ticket::TICKET_WIRE_LEN {
                            count + 1
                        } else {
                            count
                        },
                    ),
                ),
            },
        }
    }
}

impl TicketStore {
    /// What holds of every store: it is finite, and its keys are identifiers in hexadecimal.
    pub closed spec fn wf(&self) -> bool {
        &&& self.tickets@.dom().finite()
        &&& forall|key: Seq<char>| #[trigger]
            self.tickets@.contains_key(key) ==> exists|id: Seq<u8>|
                key == crate::encoding::hex_of(id)
    }

    /// Create a new empty ticket store.
    pub fn new() -> (r: Self)
        ensures
            r.wf(),
            r@ == Map::<Seq<u8>, Ticket>::empty(),
    {
        let r = TicketStore { tickets: StringHashMap::new() };
        assert(r@ =~= Map::empty());
        r
    }

    /// Add a ticket to the store. It takes the place of one with the same identifier.
    pub fn insert(&mut self, ticket: Ticket)
        requires
            old(self).wf(),
        ensures
            final(self).wf(),
            final(self)@ == old(self)@.insert(ticket.ticket_id@, ticket),
    {
        let ghost id = ticket.ticket_id@;
        let ghost before = self.tickets@;
        let id_hex: String = hex_encode(ticket.ticket_id.as_slice());
        self.tickets.insert(id_hex, ticket);
        proof {
            assert forall|other: Seq<u8>| crate::encoding::hex_of(other) == crate::encoding::hex_of(
                id,
            ) implies other == id by {
                crate::encoding::law_hex_is_injective(other, id);
            }
            assert(self@ =~= old(self)@.insert(id, ticket));
            assert(self.tickets@ == before.insert(crate::encoding::hex_of(id), ticket));
            assert(self.tickets@.dom() =~= before.dom().insert(crate::encoding::hex_of(id)));
            assert forall|key: Seq<char>| #[trigger] self.tickets@.contains_key(key) implies exists|
                i: Seq<u8>,
            | key == crate::encoding::hex_of(i) by {
                if key != crate::encoding::hex_of(id) {
                    assert(before.contains_key(key));
                }
            }
        }
    }

    /// Add the ticket of a blob, if the blob is one. Returns whether it was.
    pub fn insert_blob(&mut self, raw: &[u8]) -> (r: bool)
        requires
            old(self).wf(),
        ensures
            final(self).wf(),
            final(self)@ == with_blob(old(self)@, raw@),
            r == (raw@.len() == crate::protocol::ticket::TICKET_WIRE_LEN),
    {
        match ticket_from_bytes(raw) {
            Some(ticket) => {
                proof {
                    crate::protocol::ticket::law_a_ticket_survives_transport(
                        ticket,
                        ticket_in(raw@),
                    );
                }
                self.insert(ticket);
                true
            },
            None => false,
        }
    }

    /// Load tickets from base64-encoded 65-byte blobs. Returns how many were loaded.
    pub fn load_blobs(&mut self, blobs: &Vec<String>) -> (r: Result<usize, LoadError>)
        requires
            old(self).wf(),
        ensures
            final(self).wf(),
            final(self)@ == loaded(old(self)@, crate::encoding::texts(blobs@)).0,
            match loaded(old(self)@, crate::encoding::texts(blobs@)).1 {
                Ok(count) => r matches Ok(n) && n == count,
                Err(e) => r matches Err(x) && x@ == LoadErrorView::Base64(e),
            },
    {
        let ghost all = crate::encoding::texts(blobs@);
        let mut count: usize = 0;
        let mut i: usize = 0;
        while i < blobs.len()
            invariant
                i <= blobs@.len(),
                count <= i,
                all == crate::encoding::texts(blobs@),
                self.wf(),
                loaded(old(self)@, all.take(i as int)) == (self@, Ok::<int, Seq<char>>(count as int)),
            decreases blobs@.len() - i,
        {
            proof {
                assert(all.take(i + 1).drop_last() =~= all.take(i as int));
                assert(all.take(i + 1).last() == blobs@[i as int]@);
            }
            match base64_decode(blobs[i].as_str()) {
                Ok(raw) => {
                    if self.insert_blob(raw.as_slice()) {
                        count = count + 1;
                    }
                },
                Err(e) => {
                    proof {
                        lemma_stopped(old(self)@, all, i + 1, e@);
                    }
                    return Err(LoadError::Base64(e));
                },
            }
            i = i + 1;
        }
        assert(all.take(i as int) =~= all);
        Ok(count)
    }

    /// Load tickets from a JSON text.
    ///
    /// Format: array of base64-encoded 65-byte ticket blobs.
    /// ```json
    /// ["<base64-ticket-1>", "<base64-ticket-2>"]
    /// ```
    pub fn load_from_json(&mut self, content: &str) -> (r: Result<usize, LoadError>)
        requires
            old(self).wf(),
        ensures
            final(self).wf(),
            match crate::encoding::json_strings_of(content@) {
                Err(e) => {
                    &&& final(self)@ == old(self)@
                    &&& r matches Err(x) && x@ == LoadErrorView::Json(e)
                },
                Ok(blobs) => {
                    &&& final(self)@ == loaded(old(self)@, blobs).0
                    &&& match loaded(old(self)@, blobs).1 {
                        Ok(count) => r matches Ok(n) && n == count,
                        Err(e) => r matches Err(x) && x@ == LoadErrorView::Base64(e),
                    }
                },
            },
    {
        match json_strings(content) {
            Ok(blobs) => self.load_blobs(&blobs),
            Err(e) => Err(LoadError::Json(e)),
        }
    }

    /// Validate an auth record against a known ticket and TLS exporter, at a time.
    ///
    /// Returns `Some(Ticket)` if the ticket exists, is within its validity window,
    /// and the authcode matches (constant-time comparison).
    ///
    /// Returns `None` if:
    /// - ticket_id not found in store
    /// - ticket expired
    /// - authcode mismatch
    pub fn validate_at(
        &self,
        ticket_id: &[u8; 16],
        authcode: &[u8; 32],
        exporter: &[u8; 32],
        now: u64,
    ) -> (r: Option<Ticket>)
        ensures
            r == accepted(self@, ticket_id@, authcode@, exporter@, now),
    {
        let id_hex: String = hex_encode(ticket_id.as_slice());
        match self.tickets.get(id_hex.as_str()) {
            Some(ticket) => {
                if !ticket.is_valid_at(now) {
                    return None;
                }
                // Recompute the expected authcode.
                let expected: [u8; 32] = compute_authcode(ticket, exporter);
                // Constant-time comparison: non-negotiable.
                if ct_eq(&expected, authcode) {
                    Some(ticket.clone())
                } else {
                    None
                }
            },
            None => None,
        }
    }

    /// Validate an auth record against a known ticket and TLS exporter, by what a clock reads: at
    /// the time it reads, and with the clock's own failure where it reads none, unless the ticket
    /// is not known.
    pub fn validate_by(
        &self,
        ticket_id: &[u8; 16],
        authcode: &[u8; 32],
        exporter: &[u8; 32],
        reading: Result<u64, ClockBeforeEpoch>,
    ) -> (r: Result<Option<Ticket>, ClockBeforeEpoch>)
        ensures
            r == judged(self@, ticket_id@, authcode@, exporter@, reading),
    {
        let id_hex: String = hex_encode(ticket_id.as_slice());
        if !self.tickets.contains_key(id_hex.as_str()) {
            return Ok(None);
        }
        match reading {
            Ok(now) => Ok(self.validate_at(ticket_id, authcode, exporter, now)),
            Err(e) => Err(e),
        }
    }

    /// Validate an auth record against a known ticket and TLS exporter, at the time that the
    /// system clock reads. There is no saying where that is before the Unix epoch, unless the
    /// ticket is not known.
    pub fn validate(
        &self,
        ticket_id: &[u8; 16],
        authcode: &[u8; 32],
        exporter: &[u8; 32],
    ) -> (r: Result<Option<Ticket>, ClockBeforeEpoch>)
        ensures
            !self@.contains_key(ticket_id@) ==> r == Ok::<Option<Ticket>, ClockBeforeEpoch>(None),
            r matches Ok(found) ==> exists|now: u64|
                found == #[trigger] accepted(
                    self@,
                    ticket_id@,
                    authcode@,
                    exporter@,
                    now,
                ),
            self@.contains_key(ticket_id@) ==> exists|reading: Result<u64, ClockBeforeEpoch>|
                #[trigger]
                crate::protocol::ticket::is_reading(reading) && match reading {
                    Ok(now) => r == Ok::<Option<Ticket>, ClockBeforeEpoch>(
                        accepted(self@, ticket_id@, authcode@, exporter@, now),
                    ),
                    Err(e) => r == Err::<Option<Ticket>, ClockBeforeEpoch>(e),
                },
    {
        let id_hex: String = hex_encode(ticket_id.as_slice());
        if !self.tickets.contains_key(id_hex.as_str()) {
            assert(accepted(self@, ticket_id@, authcode@, exporter@, 0) is None);
            return Ok(None);
        }
        let reading: Result<u64, ClockBeforeEpoch> = read_clock();
        assert(crate::protocol::ticket::is_reading(reading));
        self.validate_by(ticket_id, authcode, exporter, reading)
    }

    /// Get the number of loaded tickets.
    pub fn len(&self) -> (r: usize)
        requires
            self.wf(),
        ensures
            r == self@.dom().len(),
    {
        proof {
            let keys = self.tickets@.dom();
            let back = |key: Seq<char>| choose|id: Seq<u8>| key == crate::encoding::hex_of(id);
            assert forall|key: Seq<char>| keys.contains(key) implies crate::encoding::hex_of(
                back(key),
            ) == key by {
                assert(self.tickets@.contains_key(key));
            }
            assert forall|id: Seq<u8>| #[trigger] back(crate::encoding::hex_of(id)) == id by {
                crate::encoding::law_hex_is_injective(id, back(crate::encoding::hex_of(id)));
            }
            assert(vstd::relations::injective_on(back, keys));
            assert(keys.map(back) =~= self@.dom()) by {
                assert forall|id: Seq<u8>| self@.dom().contains(id) implies keys.map(back).contains(
                    id,
                ) by {
                    assert(keys.contains(crate::encoding::hex_of(id)));
                    assert(back(crate::encoding::hex_of(id)) == id);
                }
            }
            vstd::set_lib::lemma_map_size(keys, self@.dom(), back);
        }
        self.tickets.len()
    }
}

impl Default for TicketStore {
    fn default() -> (r: Self)
        ensures
            r.wf(),
            r@ == Map::<Seq<u8>, Ticket>::empty(),
    {
        TicketStore::new()
    }
}

/// Nothing is loaded behind a blob that is no base64.
proof fn lemma_stopped(store: Map<Seq<u8>, Ticket>, blobs: Seq<Seq<char>>, n: int, e: Seq<char>)
    requires
        0 <= n <= blobs.len(),
        loaded(store, blobs.take(n)).1 == Err::<int, Seq<char>>(e),
    ensures
        loaded(store, blobs) == loaded(store, blobs.take(n)),
    decreases blobs.len() - n,
{
    if n < blobs.len() {
        assert(blobs.take(n + 1).drop_last() =~= blobs.take(n));
        lemma_stopped(store, blobs, n + 1, e);
    } else {
        assert(blobs.take(n) =~= blobs);
    }
}

/// A ticket that was put in is found again: the record that its holder builds in a session is
/// accepted in that session, for as long as the ticket is valid.
pub proof fn law_an_issued_ticket_is_accepted(
    store: Map<Seq<u8>, Ticket>,
    ticket: Ticket,
    exporter: Seq<u8>,
    now: u64,
)
    requires
        ticket.valid_at(now),
    ensures
        accepted(
            store.insert(ticket.ticket_id@, ticket),
            ticket.ticket_id@,
            crate::protocol::auth::authcode_of(ticket, exporter),
            exporter,
            now,
        ) == Some(ticket),
{
}

/// Nobody else gets in: an unknown identifier, a ticket outside its time and a wrong code are all
/// answered alike.
pub proof fn law_everything_else_is_refused_alike(
    store: Map<Seq<u8>, Ticket>,
    id: Seq<u8>,
    code: Seq<u8>,
    exporter: Seq<u8>,
    now: u64,
)
    requires
        !store.contains_key(id) || !store[id].valid_at(now) || code
            != crate::protocol::auth::authcode_of(store[id], exporter),
    ensures
        accepted(store, id, code, exporter, now) is None,
{
}

/// The store judges a record as the record judges itself against the stored ticket.
pub proof fn law_store_and_record_agree(
    store: Map<Seq<u8>, Ticket>,
    record: crate::protocol::auth::AuthRecord,
    exporter: Seq<u8>,
    now: u64,
)
    requires
        store.contains_key(record.ticket_id@),
        store[record.ticket_id@].ticket_id@ == record.ticket_id@,
        store[record.ticket_id@].valid_at(now),
    ensures
        accepted(store, record.ticket_id@, record.authcode@, exporter, now) is Some
            <==> record.is_of(store[record.ticket_id@], exporter),
{
}

/// The answer is the one for the time that the clock reads. Where that is `t`, a known ticket is
/// handed out exactly if `t` lies between its beginning and its end, both included, and the code
/// is the HMAC-SHA256, under its key, of the exporter, its identifier and its end. Where there is
/// no reading there is no answer; an unknown ticket is refused whatever the clock reads.
pub proof fn law_the_reading_decides(
    store: Map<Seq<u8>, Ticket>,
    id: Seq<u8>,
    code: Seq<u8>,
    exporter: Seq<u8>,
    t: u64,
    e: ClockBeforeEpoch,
)
    ensures
        store.contains_key(id) ==> {
            let ticket = store[id];
            let message = exporter + ticket.ticket_id@ + vstd::bytes::spec_u64_to_le_bytes(
                ticket.not_after,
            );
            let right = code == crate::crypto::hmac_sha256_of(ticket.auth_key.0@, message);
            &&& judged(store, id, code, exporter, Ok(t)) == if ticket.not_before <= t
                && t <= ticket.not_after && right {
                Ok::<Option<Ticket>, ClockBeforeEpoch>(Some(ticket))
            } else {
                Ok(None)
            }
            &&& judged(store, id, code, exporter, Err(e)) == Err::<Option<Ticket>, ClockBeforeEpoch>(
                e,
            )
            &&& judged(store, id, code, exporter, Ok(t)) == Ok::<Option<Ticket>, ClockBeforeEpoch>(
                accepted(store, id, code, exporter, t),
            )
        },
        !store.contains_key(id) ==> {
            &&& judged(store, id, code, exporter, Ok(t)) == Ok::<Option<Ticket>, ClockBeforeEpoch>(
                None,
            )
            &&& judged(store, id, code, exporter, Err(e)) == Ok::<Option<Ticket>, ClockBeforeEpoch>(
                None,
            )
            &&& accepted(store, id, code, exporter, t) is None
        },
{
}

/// A ticket that is accepted at two times is accepted at every time between them, and one that is
/// refused for its code is refused at all times.
pub proof fn law_acceptance_has_no_holes(
    store: Map<Seq<u8>, Ticket>,
    id: Seq<u8>,
    code: Seq<u8>,
    exporter: Seq<u8>,
    first: u64,
    between: u64,
    last: u64,
)
    requires
        first <= between <= last,
        accepted(store, id, code, exporter, first) is Some,
        accepted(store, id, code, exporter, last) is Some,
    ensures
        accepted(store, id, code, exporter, between) == Some(store[id]),
        store[id].not_before <= first,
        last <= store[id].not_after,
{
}

/// One blob more: the base64 text of a ticket's 65 bytes puts that ticket under its identifier and
/// counts one; any other length changes nothing and counts nothing; a text that is no base64 ends
/// the loading there, with everything before it loaded. Behind such a text nothing is looked at.
pub proof fn law_a_loaded_ticket_is_in_the_store(
    store: Map<Seq<u8>, Ticket>,
    blobs: Seq<Seq<char>>,
    text: Seq<char>,
    ticket: Ticket,
)
    ensures
        loaded(store, Seq::empty()) == (store, Ok::<int, Seq<char>>(0)),
        match loaded(store, blobs).1 {
            Err(_) => loaded(store, blobs.push(text)) == loaded(store, blobs),
            Ok(n) => match crate::encoding::base64_of(text) {
                Err(e) => loaded(store, blobs.push(text)) == (
                    loaded(store, blobs).0,
                    Err::<int, Seq<char>>(e),
                ),
                Ok(raw) => {
                    &&& raw == ticket.wire() ==> loaded(store, blobs.push(text)) == (
                        loaded(store, blobs).0.insert(ticket.ticket_id@, ticket),
                        Ok::<int, Seq<char>>(n + 1),
                    )
                    &&& raw.len() != 65 ==> loaded(store, blobs.push(text)) == loaded(store, blobs)
                },
            },
        },
{
    assert(blobs.push(text).drop_last() =~= blobs);
    let raw = ticket.wire();
    crate::protocol::ticket::law_a_ticket_survives_transport(ticket, ticket_in(raw));
}

}
