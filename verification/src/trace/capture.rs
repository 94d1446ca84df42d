//! From link-layer frames to the connection-tagged record stream: dissect, reassemble, frame,
//! attribute to a connection.

use crate::trace::flow::{FlowKey, Reassembler, Segment, Stream};
use crate::trace::records::{Direction, Record, RecordFramer};
use std::collections::BTreeMap;
use vstd::prelude::*;

pub use crate::trace::packet::dissect;

verus! {

/// One record, tagged with the connection it belongs to.
///
/// The connection has to survive into the trace file: it is the unit of evidence, and a trace that
/// only carried records would invite per-packet pooling.
#[derive(Debug, Clone, Copy, PartialEq)]
pub struct TracedRecord<T> {
    pub conn: u32,
    pub record: Record<T>,
}

/// The same flow, the other way.
pub open spec fn reversed(key: FlowKey) -> FlowKey {
    FlowKey { src: key.dst, dst: key.src, src_port: key.dst_port, dst_port: key.src_port }
}

/// Which way a flow goes, seen from the server's port.
pub open spec fn direction_of(port: u16, key: FlowKey) -> Direction {
    if key.dst_port == port {
        Direction::Up
    } else {
        Direction::Down
    }
}

/// The client's side of the connection that a flow belongs to.
pub open spec fn client_side(port: u16, key: FlowKey) -> FlowKey {
    if key.dst_port == port {
        key
    } else {
        reversed(key)
    }
}

/// What is known of one direction of one connection.
#[verifier::ext_equal]
pub struct DirectionState {
    pub stream: Stream,
    pub buffered: Seq<u8>,
    pub gave_up: bool,
}

impl DirectionState {
    /// A direction of which nothing has been seen.
    pub open spec fn unstarted() -> DirectionState {
        DirectionState { stream: Stream::unstarted(), buffered: Seq::empty(), gave_up: false }
    }

    /// Whether the byte stream broke: framing gave up, or a hole could not be filled.
    pub open spec fn broken(self) -> bool {
        self.gave_up || self.stream.gap is Some
    }

    /// The direction after one more segment, and the records that it completed.
    pub open spec fn push(self, seq: u32, payload: Seq<u8>) -> (DirectionState, Seq<(u8, int)>) {
        let (stream, bytes) = self.stream.push(seq, payload);
        if self.gave_up || bytes.len() == 0 {
            (DirectionState { stream, ..self }, Seq::empty())
        } else {
            let seen = crate::trace::records::framing(self.buffered + bytes);
            (
                DirectionState { stream, buffered: seen.rest, gave_up: seen.desynced },
                seen.records,
            )
        }
    }
}

/// What is known of a capture.
#[verifier::ext_equal]
pub struct Trace {
    pub port: u16,
    pub directions: Map<FlowKey, DirectionState>,
    /// The number of each connection, by its client's side.
    pub connections: Map<FlowKey, u32>,
    pub next_conn: u32,
}

impl Trace {
    /// A capture of which nothing has been seen.
    pub open spec fn unstarted(port: u16) -> Trace {
        Trace { port, directions: Map::empty(), connections: Map::empty(), next_conn: 0 }
    }

    /// What is known of the direction of `key`.
    pub open spec fn direction(self, key: FlowKey) -> DirectionState {
        if self.directions.contains_key(key) {
            self.directions[key]
        } else {
            DirectionState::unstarted()
        }
    }

    /// The number of the connection that `key` belongs to: the one it has, or the next one.
    pub open spec fn conn_of(self, key: FlowKey) -> u32 {
        let client = client_side(self.port, key);
        if self.connections.contains_key(client) {
            self.connections[client]
        } else {
            self.next_conn
        }
    }

    /// Whether a segment belongs to a connection of interest.
    pub open spec fn concerns(self, key: FlowKey, payload: Seq<u8>) -> bool {
        (key.dst_port == self.port || key.src_port == self.port) && payload.len() > 0
    }

    /// Whether a segment would open a connection that has no number left for it.
    pub open spec fn exhausted_by(self, key: FlowKey, payload: Seq<u8>) -> bool {
        &&& self.concerns(key, payload)
        &&& !self.connections.contains_key(client_side(self.port, key))
        &&& self.next_conn == u32::MAX
    }

    /// The capture after one more segment.
    pub open spec fn push(self, key: FlowKey, seq: u32, payload: Seq<u8>) -> Trace {
        let client = client_side(self.port, key);
        if !self.concerns(key, payload) {
            self
        } else {
            Trace {
                port: self.port,
                directions: self.directions.insert(key, self.direction(key).push(seq, payload).0),
                connections: self.connections.insert(client, self.conn_of(key)),
                next_conn: if self.connections.contains_key(client) {
                    self.next_conn
                } else {
                    (self.next_conn + 1) as u32
                },
            }
        }
    }

    /// The records that a segment completes.
    pub open spec fn completed<T>(self, key: FlowKey, seq: u32, payload: Seq<u8>, t: T) -> Seq<
        TracedRecord<T>,
    > {
        if !self.concerns(key, payload) {
            Seq::empty()
        } else {
            tag(
                crate::trace::records::stamp(
                    self.direction(key).push(seq, payload).1,
                    t,
                    direction_of(self.port, key),
                ),
                self.conn_of(key),
            )
        }
    }

    /// Connections are numbered from zero, in the order of their first segment, each with a number
    /// of its own.
    pub open spec fn numbered(self) -> bool {
        &&& self.connections.dom().finite()
        &&& self.connections.dom().len() == self.next_conn
        &&& forall|c: FlowKey| #[trigger]
            self.connections.contains_key(c) ==> self.connections[c] < self.next_conn
        &&& forall|c: FlowKey, d: FlowKey|
            #![trigger self.connections[c], self.connections[d]]
            self.connections.contains_key(c) && self.connections.contains_key(d)
                && self.connections[c] == self.connections[d] ==> c == d
    }

    /// What holds of every capture: connections are numbered, and directions are finitely many.
    pub open spec fn wf(self) -> bool {
        self.numbered() && self.directions.dom().finite()
    }

    /// Whether a frame would open a connection that has no number left for it.
    pub open spec fn exhausted_by_frame(self, data: Seq<u8>) -> bool {
        match crate::trace::packet::dissection(data) {
            Some((key, seq, payload)) => self.exhausted_by(key, payload),
            None => false,
        }
    }

    /// The capture after one more frame.
    pub open spec fn push_frame(self, data: Seq<u8>) -> Trace {
        match crate::trace::packet::dissection(data) {
            Some((key, seq, payload)) => self.push(key, seq, payload),
            None => self,
        }
    }

    /// The records that a frame completes.
    pub open spec fn completed_by_frame<T>(self, data: Seq<u8>, t: T) -> Seq<TracedRecord<T>> {
        match crate::trace::packet::dissection(data) {
            Some((key, seq, payload)) => self.completed(key, seq, payload, t),
            None => Seq::empty(),
        }
    }

    /// The directions whose byte stream broke.
    pub open spec fn broken(self) -> Set<FlowKey> {
        self.directions.dom().filter(|key: FlowKey| self.directions[key].broken())
    }
}

/// Records, each tagged with the same connection.
pub open spec fn tag<T>(records: Seq<Record<T>>, conn: u32) -> Seq<TracedRecord<T>> {
    records.map_values(|record: Record<T>| TracedRecord { conn, record })
}

/// A flow key as a tuple of integers.
type FlowCode = (u128, u128, u16, u16);

spec fn code(key: FlowKey) -> FlowCode {
    (
        vstd::bytes::spec_u128_from_le_bytes(key.src@),
        vstd::bytes::spec_u128_from_le_bytes(key.dst@),
        key.src_port,
        key.dst_port,
    )
}

/// Different flows have different codes.
proof fn lemma_code_injective(a: FlowKey, b: FlowKey)
    requires
        code(a) == code(b),
    ensures
        a == b,
{
    vstd::bytes::lemma_auto_spec_u128_to_from_le_bytes();
    assert(vstd::bytes::spec_u128_to_le_bytes(code(a).0) == a.src@);
    assert(vstd::bytes::spec_u128_to_le_bytes(code(b).0) == b.src@);
    assert(vstd::bytes::spec_u128_to_le_bytes(code(a).1) == a.dst@);
    assert(vstd::bytes::spec_u128_to_le_bytes(code(b).1) == b.dst@);
    assert(a.src =~= b.src && a.dst =~= b.dst);
}

fn encode(key: &FlowKey) -> (r: FlowCode)
    ensures
        r == code(*key),
{
    (
        vstd::bytes::u128_from_le_bytes(key.src.as_slice()),
        vstd::bytes::u128_from_le_bytes(key.dst.as_slice()),
        key.src_port,
        key.dst_port,
    )
}

/// The client's side of the connection that a flow belongs to.
fn client_of(port: u16, key: &FlowKey) -> (r: FlowKey)
    ensures
        r == client_side(port, *key),
{
    if key.dst_port == port {
        *key
    } else {
        FlowKey { src: key.dst, dst: key.src, src_port: key.dst_port, dst_port: key.src_port }
    }
}

/// Accumulates packets into a record stream.
#[derive(Debug)]
pub struct TraceBuilder {
    port: u16,
    streams: BTreeMap<FlowCode, (Reassembler, RecordFramer)>,
    connections: BTreeMap<FlowCode, u32>,
    next_conn: u32,
}

spec fn state_of(halves: (Reassembler, RecordFramer)) -> DirectionState {
    DirectionState {
        stream: halves.0@,
        buffered: halves.1.buffered(),
        gave_up: halves.1.gave_up(),
    }
}

spec fn directions_of(streams: Map<FlowCode, (Reassembler, RecordFramer)>) -> Map<
    FlowKey,
    DirectionState,
> {
    Map::new(
        |key: FlowKey| streams.contains_key(code(key)),
        |key: FlowKey| state_of(streams[code(key)]),
    )
}

spec fn connections_of(connections: Map<FlowCode, u32>) -> Map<FlowKey, u32> {
    Map::new(
        |key: FlowKey| connections.contains_key(code(key)),
        |key: FlowKey| connections[code(key)],
    )
}

impl View for TraceBuilder {
    type V = Trace;

    closed spec fn view(&self) -> Trace {
        Trace {
            port: self.port,
            directions: directions_of(self.streams@),
            connections: connections_of(self.connections@),
            next_conn: self.next_conn,
        }
    }
}

/// Numbers stay unique when a connection is added.
proof fn lemma_push_numbered(t: Trace, key: FlowKey, seq: u32, payload: Seq<u8>)
    requires
        t.numbered(),
        !t.exhausted_by(key, payload),
    ensures
        t.push(key, seq, payload).numbered(),
{
    let client = client_side(t.port, key);
    let after = t.push(key, seq, payload);
    if t.concerns(key, payload) {
        if t.connections.contains_key(client) {
            assert(after.connections =~= t.connections);
        } else {
            assert(after.connections.dom() =~= t.connections.dom().insert(client));
        }
        assert forall|c: FlowKey, d: FlowKey|
            #![trigger after.connections[c], after.connections[d]]
            after.connections.contains_key(c) && after.connections.contains_key(d)
                && after.connections[c] == after.connections[d] implies c == d by {
            if c != client {
                assert(t.connections.contains_key(c));
            }
            if d != client {
                assert(t.connections.contains_key(d));
            }
        }
    }
}

fn find(connections: &BTreeMap<FlowCode, u32>, c: &FlowCode) -> (r: Option<u32>)
    ensures
        r == if connections@.contains_key(*c) {
            Some(connections@[*c])
        } else {
            None
        },
{
    broadcast use vstd::std_specs::btree::group_btree_axioms;
    broadcast use vstd::laws_cmp::group_laws_cmp;

    assert(vstd::laws_cmp::obeys_cmp::<FlowCode>());
    match connections.get(c) {
        Some(id) => Some(*id),
        None => None,
    }
}

fn put<V>(map: &mut BTreeMap<FlowCode, V>, c: FlowCode, v: V)
    ensures
        final(map)@ == old(map)@.insert(c, v),
{
    broadcast use vstd::std_specs::btree::group_btree_axioms;
    broadcast use vstd::laws_cmp::group_laws_cmp;

    assert(vstd::laws_cmp::obeys_cmp::<FlowCode>());
    map.insert(c, v);
}

/// Takes the two halves of a direction out, or makes new ones.
fn take_halves(
    streams: &mut BTreeMap<FlowCode, (Reassembler, RecordFramer)>,
    c: &FlowCode,
) -> (r: (Reassembler, RecordFramer))
    ensures
        final(streams)@ == old(streams)@.remove(*c),
        old(streams)@.contains_key(*c) ==> r == old(streams)@[*c],
        !old(streams)@.contains_key(*c) ==> state_of(r) == DirectionState::unstarted() && r.0@.wf(),
{
    broadcast use vstd::std_specs::btree::group_btree_axioms;
    broadcast use vstd::laws_cmp::group_laws_cmp;

    assert(vstd::laws_cmp::obeys_cmp::<FlowCode>());
    match streams.remove(c) {
        Some(halves) => halves,
        None => (Reassembler::default(), RecordFramer::default()),
    }
}

fn tag_all<T: Copy>(records: &Vec<Record<T>>, conn: u32) -> (r: Vec<TracedRecord<T>>)
    ensures
        r@ == tag(records@, conn),
{
    let mut out: Vec<TracedRecord<T>> = Vec::new();
    let mut i: usize = 0;
    while i < records.len()
        invariant
            i <= records.len(),
            out@ == tag(records@.take(i as int), conn),
        decreases records.len() - i,
    {
        let record: Record<T> = records[i];
        out.push(TracedRecord { conn, record });
        i = i + 1;
        assert(out@ =~= tag(records@.take(i as int), conn));
    }
    assert(records@.take(i as int) =~= records@);
    out
}

spec fn broken_codes(streams: Map<FlowCode, (Reassembler, RecordFramer)>) -> Set<FlowCode> {
    streams.dom().filter(|c: FlowCode| state_of(streams[c]).broken())
}

fn count_broken(streams: &BTreeMap<FlowCode, (Reassembler, RecordFramer)>) -> (r: usize)
    ensures
        broken_codes(streams@).finite(),
        r == broken_codes(streams@).len(),
{
    broadcast use vstd::std_specs::btree::group_btree_axioms;
    broadcast use vstd::laws_cmp::group_laws_cmp;

    assert(vstd::laws_cmp::obeys_cmp::<FlowCode>());
    let total: usize = streams.len();
    let mut count: usize = 0;
    let ghost mut bad = Set::<FlowCode>::empty();
    for entry in it: streams.iter()
        invariant
            it.seq() == vstd::std_specs::iter::IteratorSpec::remaining(
                &vstd::std_specs::btree::spec_btree_map_iter(streams),
            ),
            it.seq().no_duplicates(),
            it.seq().len() == total,
            bad.finite(),
            count == bad.len(),
            count <= it.index(),
            bad == Set::new(
                |c: FlowCode|
                    exists|i: int|
                        0 <= i < it.index() && *(#[trigger] it.seq()[i]).0 == c && state_of(
                            *it.seq()[i].1,
                        ).broken(),
            ),
            vstd::laws_cmp::obeys_cmp::<FlowCode>(),
    {
        let halves: &(Reassembler, RecordFramer) = entry.1;
        if halves.1.desynced() || halves.0.gap().is_some() {
            proof {
                let n = it.index();
                assert(it.seq()[n] == entry);
                assert forall|i: int| 0 <= i < n implies *(#[trigger] it.seq()[i]).0 != *entry.0 by {
                    assert(streams@[*it.seq()[i].0] == *it.seq()[i].1);
                    assert(streams@[*it.seq()[n].0] == *it.seq()[n].1);
                }
                assert(!bad.contains(*entry.0));
                bad = bad.insert(*entry.0);
            }
            count = count + 1;
        }
    }
    assert(bad =~= broken_codes(streams@));
    count
}

impl TraceBuilder {
    /// What holds of every builder.
    pub closed spec fn wf(&self) -> bool {
        &&& self@.wf()
        &&& forall|c: FlowCode| #[trigger] self.streams@.contains_key(c) ==> self.streams@[c].0@.wf()
        &&& forall|c: FlowCode| #[trigger] self.streams@.contains_key(c) ==> exists|key: FlowKey|
            c == code(key)
    }

    /// `port` is the server port that identifies the connections of interest; it also fixes which
    /// direction is "up", so the two sides never depend on which packet was captured first.
    pub fn new(port: u16) -> (r: Self)
        ensures
            r.wf(),
            r@ == Trace::unstarted(port),
            r@.wf(),
            r@.numbered(),
    {
        let r = TraceBuilder {
            port,
            streams: BTreeMap::new(),
            connections: BTreeMap::new(),
            next_conn: 0,
        };
        assert(r@.directions =~= Map::empty());
        assert(r@.connections =~= Map::empty());
        r
    }

    /// Offers one link-layer frame. Returns the records it completed.
    pub fn push<T: Copy>(&mut self, data: &[u8], timestamp: T) -> (r: Vec<TracedRecord<T>>)
        requires
            old(self).wf(),
            !old(self)@.exhausted_by_frame(data@),
        ensures
            final(self).wf(),
            final(self)@.wf(),
            final(self)@.numbered(),
            final(self)@ == old(self)@.push_frame(data@),
            r@ == old(self)@.completed_by_frame(data@, timestamp),
    {
        match dissect(data) {
            Some((key, seq, payload)) => self.push_segment(key, seq, payload, timestamp),
            None => Vec::new(),
        }
    }

    /// Offers one link-layer frame, if there is a number for its connection. Returns the records it
    /// completed; nothing where every number is taken, and the frame is then passed over.
    pub fn push_if_room<T: Copy>(&mut self, data: &[u8], timestamp: T) -> (r: Option<
        Vec<TracedRecord<T>>,
    >)
        requires
            old(self).wf(),
        ensures
            final(self).wf(),
            final(self)@.wf(),
            r is None <==> old(self)@.exhausted_by_frame(data@),
            r is None ==> final(self)@ == old(self)@,
            r matches Some(records) ==> {
                &&& final(self)@ == old(self)@.push_frame(data@)
                &&& records@ == old(self)@.completed_by_frame(data@, timestamp)
            },
    {
        if let Some((key, seq, payload)) = dissect(data) {
            if self.lacks_number(&key, payload) {
                return None;
            }
        }
        Some(self.push(data, timestamp))
    }

    /// Whether a segment would open a connection that has no number left for it.
    fn lacks_number(&self, key: &FlowKey, payload: &[u8]) -> (r: bool)
        ensures
            r == self@.exhausted_by(*key, payload@),
    {
        if (key.dst_port != self.port && key.src_port != self.port) || payload.len() == 0 {
            return false;
        }
        let client: FlowKey = client_of(self.port, key);
        self.next_conn == u32::MAX && find(&self.connections, &encode(&client)).is_none()
    }

    /// Offers one TCP segment. Returns the records it completed.
    pub fn push_segment<T: Copy>(
        &mut self,
        key: FlowKey,
        seq: u32,
        payload: &[u8],
        timestamp: T,
    ) -> (r: Vec<TracedRecord<T>>)
        requires
            old(self).wf(),
            !old(self)@.exhausted_by(key, payload@),
        ensures
            final(self).wf(),
            final(self)@.wf(),
            final(self)@.numbered(),
            final(self)@ == old(self)@.push(key, seq, payload@),
            r@ == old(self)@.completed(key, seq, payload@, timestamp),
    {
        let ghost before = *self;
        if (key.dst_port != self.port && key.src_port != self.port) || payload.len() == 0 {
            return Vec::new();
        }
        proof {
            lemma_push_numbered(self@, key, seq, payload@);
        }
        let up: bool = key.dst_port == self.port;
        let dir: Direction = if up {
            Direction::Up
        } else {
            Direction::Down
        };
        // Key the connection on its client's side whichever way the packet went, so both
        // directions land on one id.
        let client: FlowKey = client_of(self.port, &key);
        let client_code: FlowCode = encode(&client);
        let conn: u32 = match find(&self.connections, &client_code) {
            Some(id) => id,
            None => {
                let id: u32 = self.next_conn;
                self.next_conn = id + 1;
                put(&mut self.connections, client_code, id);
                id
            },
        };
        let flow_code: FlowCode = encode(&key);
        let (mut reassembler, mut framer): (Reassembler, RecordFramer) = take_halves(
            &mut self.streams,
            &flow_code,
        );
        let segment: Option<Segment<T>> = reassembler.push(seq, payload, timestamp);
        let mut records: Vec<Record<T>> = Vec::new();
        match &segment {
            Some(segment) => {
                framer.push(segment.bytes.as_slice(), segment.timestamp, dir, &mut records);
            },
            None => {},
        }
        let ghost halves = (reassembler, framer);
        put(&mut self.streams, flow_code, (reassembler, framer));
        let out: Vec<TracedRecord<T>> = tag_all(&records, conn);
        proof {
            let goal = before@.push(key, seq, payload@);
            assert(self@.connections =~= goal.connections) by {
                assert forall|k: FlowKey| code(k) == client_code implies k == client by {
                    lemma_code_injective(k, client);
                }
            }
            assert(self@.directions =~= goal.directions) by {
                assert forall|k: FlowKey| code(k) == flow_code implies k == key by {
                    lemma_code_injective(k, key);
                }
                assert(state_of(halves) =~= goal.directions[key]);
            }
            assert(records@ =~= crate::trace::records::stamp(
                before@.direction(key).push(seq, payload@).1,
                timestamp,
                dir,
            ));
        }
        out
    }

    /// Connections seen so far.
    pub fn connections(&self) -> (r: u32)
        requires
            self.wf(),
        ensures
            r == self@.next_conn,
            r == self@.connections.dom().len(),
            self@.numbered(),
    {
        self.next_conn
    }

    /// Directions whose byte stream broke: desynced framing, or a hole that could not be filled.
    ///
    /// Their records stop early, so the connections they belong to are short in a way that has
    /// nothing to do with the traffic. Discard them; do not summarise them.
    pub fn broken_directions(&self) -> (r: usize)
        requires
            self.wf(),
        ensures
            r == self@.broken().len(),
    {
        let r: usize = count_broken(&self.streams);
        proof {
            let codes = broken_codes(self.streams@);
            let decode = |c: FlowCode| choose|key: FlowKey| c == code(key);
            assert forall|c: FlowCode| codes.contains(c) implies code(decode(c)) == c by {
                assert(self.streams@.contains_key(c));
            }
            assert forall|key: FlowKey| #[trigger] decode(code(key)) == key by {
                lemma_code_injective(key, decode(code(key)));
            }
            assert(vstd::relations::injective_on(decode, codes));
            assert(codes.map(decode) =~= self@.broken()) by {
                assert forall|key: FlowKey| self@.broken().contains(key) implies codes.map(
                    decode,
                ).contains(key) by {
                    assert(codes.contains(code(key)));
                    assert(decode(code(key)) == key);
                }
            }
            vstd::set_lib::lemma_map_size(codes, self@.broken(), decode);
        }
        r
    }
}

/// Both directions of a connection land on one number, one as "up" and one as "down", whichever is
/// seen first. A flow whose two ports are both the server's port counts as "up" either way.
pub proof fn law_both_directions_share_a_connection(t: Trace, key: FlowKey)
    requires
        key.dst_port == t.port || key.src_port == t.port,
        key.dst_port != key.src_port,
    ensures
        client_side(t.port, key) == client_side(t.port, reversed(key)),
        t.conn_of(key) == t.conn_of(reversed(key)),
        direction_of(t.port, key) != direction_of(t.port, reversed(key)),
{
}

/// A connection keeps its number for good, and a segment only concerns its own direction: every
/// other direction stays as it was.
pub proof fn law_a_segment_leaves_other_flows_alone(
    t: Trace,
    key: FlowKey,
    seq: u32,
    payload: Seq<u8>,
    other: FlowKey,
)
    requires
        t.numbered(),
        !t.exhausted_by(key, payload),
    ensures
        t.push(key, seq, payload).numbered(),
        t.connections.contains_key(client_side(t.port, other)) ==> t.push(
            key,
            seq,
            payload,
        ).conn_of(other) == t.conn_of(other),
        t.concerns(key, payload) ==> t.push(key, seq, payload).conn_of(key) == t.conn_of(key),
        other != key ==> t.push(key, seq, payload).direction(other) == t.direction(other),
{
    lemma_push_numbered(t, key, seq, payload);
}

/// Two flows of known connections have the same number exactly if they belong to the same
/// connection.
pub proof fn law_connections_have_numbers_of_their_own(t: Trace, a: FlowKey, b: FlowKey)
    requires
        t.numbered(),
        t.connections.contains_key(client_side(t.port, a)),
        t.connections.contains_key(client_side(t.port, b)),
    ensures
        t.conn_of(a) == t.conn_of(b) <==> client_side(t.port, a) == client_side(t.port, b),
{
}

/// A direction that broke stays broken, so it is never summarised by mistake later.
pub proof fn law_a_broken_direction_stays_broken(
    t: Trace,
    key: FlowKey,
    seq: u32,
    payload: Seq<u8>,
    other: FlowKey,
)
    requires
        t.broken().contains(other),
    ensures
        t.push(key, seq, payload).broken().contains(other),
{
}

/// Traffic on another port shares the capture and leaves no mark on the trace, and neither does a
/// segment that carries nothing.
pub proof fn law_other_traffic_is_ignored<T>(
    t: Trace,
    key: FlowKey,
    seq: u32,
    payload: Seq<u8>,
    timestamp: T,
)
    requires
        (key.dst_port != t.port && key.src_port != t.port) || payload.len() == 0,
    ensures
        t.push(key, seq, payload) == t,
        t.completed(key, seq, payload, timestamp) == Seq::<TracedRecord<T>>::empty(),
{
}

/// A TCP segment.
pub struct Sent {
    pub key: FlowKey,
    pub seq: u32,
    pub payload: Seq<u8>,
}

impl Trace {
    /// The capture after some segments, one after the other.
    pub open spec fn after(self, sent: Seq<Sent>) -> Trace
        decreases sent.len(),
    {
        if sent.len() == 0 {
            self
        } else {
            self.after(sent.drop_last()).push(
                sent.last().key,
                sent.last().seq,
                sent.last().payload,
            )
        }
    }

    /// The capture after some frames, one after the other.
    pub open spec fn after_frames(self, frames: Seq<Seq<u8>>) -> Trace
        decreases frames.len(),
    {
        if frames.len() == 0 {
            self
        } else {
            self.after_frames(frames.drop_last()).push_frame(frames.last())
        }
    }

    /// Whether there is a number for the connection of each of some segments.
    pub open spec fn has_room_for(self, sent: Seq<Sent>) -> bool {
        forall|i: int|
            0 <= i < sent.len() ==> !self.after(sent.take(i)).exhausted_by(
                (#[trigger] sent[i]).key,
                sent[i].payload,
            )
    }
}

/// The TCP segments that some frames carry.
pub open spec fn segments_in(frames: Seq<Seq<u8>>) -> Seq<Sent>
    decreases frames.len(),
{
    if frames.len() == 0 {
        Seq::empty()
    } else {
        let before = segments_in(frames.drop_last());
        match crate::trace::packet::dissection(frames.last()) {
            Some((key, seq, payload)) => before.push(Sent { key, seq, payload }),
            None => before,
        }
    }
}

/// A capture is what its TCP segments make it: other frames leave no mark.
pub proof fn law_frames_count_by_their_segments(t: Trace, frames: Seq<Seq<u8>>)
    ensures
        t.after_frames(frames) == t.after(segments_in(frames)),
    decreases frames.len(),
{
    if frames.len() > 0 {
        law_frames_count_by_their_segments(t, frames.drop_last());
        let before = segments_in(frames.drop_last());
        if let Some((key, seq, payload)) = crate::trace::packet::dissection(frames.last()) {
            assert(before.push(Sent { key, seq, payload }).drop_last() =~= before);
        }
    }
}

/// Whether a segment of a connection of interest is of the connection of `client`.
pub open spec fn is_of_client(port: u16, s: Sent, client: FlowKey) -> bool {
    &&& s.key.dst_port == port || s.key.src_port == port
    &&& s.payload.len() > 0
    &&& client_side(port, s.key) == client
}

/// The connections of interest among some segments, each by its client's side.
pub open spec fn clients_in(port: u16, sent: Seq<Sent>) -> Set<FlowKey> {
    Set::new(|c: FlowKey| exists|i: int| 0 <= i < sent.len() && is_of_client(port, #[trigger] sent[i], c))
}

proof fn lemma_clients_grow(port: u16, sent: Seq<Sent>)
    requires
        sent.len() > 0,
    ensures
        clients_in(port, sent) == if is_of_client(
            port,
            sent.last(),
            client_side(port, sent.last().key),
        ) {
            clients_in(port, sent.drop_last()).insert(client_side(port, sent.last().key))
        } else {
            clients_in(port, sent.drop_last())
        },
{
    let less = sent.drop_last();
    let last = sent.last();
    assert forall|c: FlowKey| #[trigger] clients_in(port, sent).contains(c) <==> (clients_in(
        port,
        less,
    ).contains(c) || is_of_client(port, last, c)) by {
        if clients_in(port, less).contains(c) {
            let i = choose|i: int| 0 <= i < less.len() && is_of_client(port, #[trigger] less[i], c);
            assert(sent[i] == less[i]);
        }
        if clients_in(port, sent).contains(c) {
            let i = choose|i: int| 0 <= i < sent.len() && is_of_client(port, #[trigger] sent[i], c);
            if i < less.len() {
                assert(sent[i] == less[i]);
            }
        }
        if is_of_client(port, last, c) {
            assert(is_of_client(port, sent[sent.len() - 1], c));
        }
    }
    let client = client_side(port, last.key);
    if is_of_client(port, last, client) {
        assert(clients_in(port, sent) =~= clients_in(port, less).insert(client));
    } else {
        assert(clients_in(port, sent) =~= clients_in(port, less));
    }
}

proof fn lemma_room_less(t: Trace, sent: Seq<Sent>)
    requires
        t.has_room_for(sent),
        sent.len() > 0,
    ensures
        t.has_room_for(sent.drop_last()),
        !t.after(sent.drop_last()).exhausted_by(sent.last().key, sent.last().payload),
{
    let less = sent.drop_last();
    assert forall|i: int| 0 <= i < less.len() implies !t.after(less.take(i)).exhausted_by(
        (#[trigger] less[i]).key,
        less[i].payload,
    ) by {
        assert(less.take(i) =~= sent.take(i) && less[i] == sent[i]);
    }
    assert(sent.take(sent.len() - 1) =~= less);
    assert(sent[sent.len() - 1] == sent.last());
}

/// Whether the connection of segment `i`, where it is of interest, was given a number that it has
/// kept and that the count lies above.
pub open spec fn keeps_number(port: u16, sent: Seq<Sent>, i: int, t: Trace) -> bool {
    is_of_client(port, sent[i], client_side(port, sent[i].key)) ==> {
        let conn = Trace::unstarted(port).after(sent.take(i)).conn_of(sent[i].key);
        conn < t.next_conn && conn == t.conn_of(sent[i].key)
    }
}

proof fn lemma_number_kept(port: u16, sent: Seq<Sent>, i: int)
    requires
        Trace::unstarted(port).has_room_for(sent),
        0 <= i < sent.len(),
        ({
            let before = Trace::unstarted(port).after(sent.drop_last());
            &&& before.wf()
            &&& before.port == port
            &&& before.connections.dom() == clients_in(port, sent.drop_last())
            &&& i < sent.len() - 1 ==> keeps_number(port, sent.drop_last(), i, before)
        }),
    ensures
        keeps_number(port, sent, i, Trace::unstarted(port).after(sent)),
{
    let start = Trace::unstarted(port);
    let less = sent.drop_last();
    let last = sent.last();
    let before = start.after(less);
    lemma_room_less(start, sent);
    if i < less.len() {
        assert(less.take(i) =~= sent.take(i) && less[i] == sent[i]);
        let c = client_side(port, sent[i].key);
        if is_of_client(port, sent[i], c) {
            assert(is_of_client(port, less[i], c));
            assert(before.connections.contains_key(c));
            law_a_segment_leaves_other_flows_alone(
                before,
                last.key,
                last.seq,
                last.payload,
                sent[i].key,
            );
        }
    } else {
        assert(sent.take(i) =~= less);
        assert(sent[i] == last);
    }
}

/// The connections of a capture are the distinct pairs of client and server among the segments that
/// go to or from the server's port and carry something, and their number is the count of those.
/// Every number that was given to a record lies below it, and its connection still has it.
pub proof fn law_connections_are_the_distinct_pairs(port: u16, sent: Seq<Sent>)
    requires
        Trace::unstarted(port).has_room_for(sent),
    ensures
        ({
            let t = Trace::unstarted(port).after(sent);
            &&& t.wf()
            &&& t.port == port
            &&& t.connections.dom() == clients_in(port, sent)
            &&& t.next_conn == clients_in(port, sent).len()
            &&& forall|i: int| 0 <= i < sent.len() ==> #[trigger] keeps_number(port, sent, i, t)
        }),
    decreases sent.len(),
{
    let start = Trace::unstarted(port);
    let t = start.after(sent);
    if sent.len() == 0 {
        assert(clients_in(port, sent) =~= Set::empty());
        assert(t.connections.dom() =~= Set::empty());
    } else {
        let less = sent.drop_last();
        let last = sent.last();
        let before = start.after(less);
        lemma_room_less(start, sent);
        law_connections_are_the_distinct_pairs(port, less);
        lemma_push_numbered(before, last.key, last.seq, last.payload);
        lemma_clients_grow(port, sent);
        assert(t.connections.dom() =~= clients_in(port, sent));
        assert forall|i: int| 0 <= i < sent.len() implies #[trigger] keeps_number(port, sent, i, t) by {
            if i < less.len() {
                assert(keeps_number(port, less, i, before));
            }
            lemma_number_kept(port, sent, i);
        }
    }
}

/// A direction that broke gives no further records, whatever is still offered to it.
pub proof fn law_a_broken_direction_gives_no_records<T>(
    t: Trace,
    key: FlowKey,
    seq: u32,
    payload: Seq<u8>,
    timestamp: T,
)
    requires
        t.broken().contains(key),
    ensures
        t.completed(key, seq, payload, timestamp).len() == 0,
{
}

/// The directions that broke are never fewer than before: whatever segments follow, each of them is
/// still among them, and so their count does not fall.
pub proof fn law_broken_directions_never_fall(t: Trace, sent: Seq<Sent>)
    requires
        t.directions.dom().finite(),
    ensures
        t.after(sent).directions.dom().finite(),
        t.broken().subset_of(t.after(sent).broken()),
        t.broken().len() <= t.after(sent).broken().len(),
    decreases sent.len(),
{
    if sent.len() > 0 {
        let before = t.after(sent.drop_last());
        let last = sent.last();
        law_broken_directions_never_fall(t, sent.drop_last());
        assert forall|key: FlowKey| before.broken().contains(key) implies t.after(
            sent,
        ).broken().contains(key) by {
            law_a_broken_direction_stays_broken(before, last.key, last.seq, last.payload, key);
        }
    }
    vstd::set_lib::lemma_len_subset(t.broken(), t.after(sent).broken());
}

/// What is known of a direction after some segments, and all the records that they completed.
pub open spec fn recovered(offers: Seq<crate::trace::flow::Offer>) -> (
    DirectionState,
    Seq<(u8, int)>,
)
    decreases offers.len(),
{
    if offers.len() == 0 {
        (DirectionState::unstarted(), Seq::empty())
    } else {
        let (before, seen) = recovered(offers.drop_last());
        let (after, new) = before.push(offers.last().seq, offers.last().payload);
        (after, seen + new)
    }
}

/// The records that come out of a direction are those of the bytes that its reassembly hands on.
proof fn lemma_recovered(offers: Seq<crate::trace::flow::Offer>)
    ensures
        ({
            let (d, seen) = recovered(offers);
            let (stream, bytes) = crate::trace::flow::pushed(Stream::unstarted(), offers);
            let read = crate::trace::records::framing(bytes);
            &&& d.stream == stream
            &&& seen == read.records
            &&& d.gave_up == read.desynced
            &&& !d.gave_up ==> d.buffered == read.rest
        }),
    decreases offers.len(),
{
    if offers.len() > 0 {
        let less = offers.drop_last();
        lemma_recovered(less);
        let (before, seen) = recovered(less);
        let (stream, bytes) = crate::trace::flow::pushed(Stream::unstarted(), less);
        let (after, new) = before.push(offers.last().seq, offers.last().payload);
        let more = stream.push(offers.last().seq, offers.last().payload).1;
        crate::trace::records::law_framing_ignores_packet_boundaries(bytes, more);
        if before.gave_up || more.len() == 0 {
            assert(seen + new =~= seen);
            assert(more.len() == 0 ==> bytes + more =~= bytes);
        }
    }
}

/// However the segments of a stream arrive, cut anywhere, reordered, repeated or overlapping, the
/// records that come out, one after the other, are the records of a beginning of the stream itself:
/// none is invented, lost or cut short. That beginning is all that the segments hold without a
/// hole, for as long as the direction is not broken.
pub proof fn law_a_capture_recovers_the_records(
    stream: Seq<u8>,
    origin: u32,
    offers: Seq<crate::trace::flow::Offer>,
)
    requires
        crate::trace::flow::all_from(stream, origin, offers),
    ensures
        ({
            let (d, seen) = recovered(offers);
            let n = crate::trace::flow::pushed(Stream::unstarted(), offers).1.len() as int;
            let read = crate::trace::records::framing(stream.take(n));
            &&& n <= stream.len()
            &&& seen == read.records
            &&& d.gave_up == read.desynced
            &&& !d.gave_up ==> d.buffered == read.rest
            &&& !d.broken() ==> forall|i: int|
                0 <= i < offers.len() && (#[trigger] offers[i]).payload.len() > 0 && offers[i].at
                    <= n ==> offers[i].at + offers[i].payload.len() <= n
        }),
{
    lemma_recovered(offers);
    crate::trace::flow::law_pushes_give_a_beginning_of_the_stream(stream, origin, offers);
}

/// A connection is a pair of endpoints: two flows to or from the server's port belong to the same
/// connection exactly if they are the same flow, or the same with both addresses and both ports
/// exchanged. What goes to the server's port goes up, what only comes from it goes down.
pub proof fn law_a_connection_is_a_pair_of_endpoints(port: u16, a: FlowKey, b: FlowKey)
    requires
        (a.src_port == port) != (a.dst_port == port),
        (b.src_port == port) != (b.dst_port == port),
    ensures
        client_side(port, a) == client_side(port, b) <==> a == b || (a.src == b.dst && a.dst
            == b.src && a.src_port == b.dst_port && a.dst_port == b.src_port),
        client_side(port, a).dst_port == port,
        direction_of(port, a) == Direction::Up <==> a.dst_port == port,
        direction_of(port, a) == Direction::Down <==> a.src_port == port,
{
}

/// Connections are numbered as they come, from zero: one of which nothing was seen yet gets the
/// number of connections there were, and from then on the count is one higher; any other keeps
/// its number, and the count stays.
pub proof fn law_connections_are_numbered_as_they_come(
    t: Trace,
    key: FlowKey,
    seq: u32,
    payload: Seq<u8>,
)
    requires
        t.numbered(),
        t.concerns(key, payload),
        !t.exhausted_by(key, payload),
    ensures
        Trace::unstarted(t.port).next_conn == 0,
        t.connections.contains_key(client_side(t.port, key)) ==> t.push(
            key,
            seq,
            payload,
        ).next_conn == t.next_conn && t.push(key, seq, payload).conn_of(key) == t.conn_of(key),
        !t.connections.contains_key(client_side(t.port, key)) ==> t.push(
            key,
            seq,
            payload,
        ).conn_of(key) == t.connections.dom().len() && t.push(key, seq, payload).next_conn
            == t.connections.dom().len() + 1,
{
}

/// A direction is broken if framing gave up on it or bytes are missing from it, and in no other
/// way.
pub proof fn law_a_direction_breaks_by_framing_or_by_a_hole(t: Trace, key: FlowKey)
    ensures
        t.broken().contains(key) <==> t.directions.contains_key(key) && (
        t.directions[key].gave_up || t.directions[key].stream.gap is Some),
{
}

/// The segments of one direction among some segments.
pub open spec fn segments_of(sent: Seq<Sent>, key: FlowKey) -> Seq<crate::trace::flow::Offer>
    decreases sent.len(),
{
    if sent.len() == 0 {
        Seq::empty()
    } else {
        let before = segments_of(sent.drop_last(), key);
        if sent.last().key == key {
            before.push(
                crate::trace::flow::Offer {
                    seq: sent.last().seq,
                    payload: sent.last().payload,
                    at: 0,
                },
            )
        } else {
            before
        }
    }
}

proof fn lemma_direction_of_segments(port: u16, sent: Seq<Sent>, key: FlowKey)
    requires
        key.dst_port == port || key.src_port == port,
    ensures
        Trace::unstarted(port).after(sent).port == port,
        Trace::unstarted(port).after(sent).direction(key) == recovered(segments_of(sent, key)).0,
    decreases sent.len(),
{
    if sent.len() > 0 {
        let less = sent.drop_last();
        lemma_direction_of_segments(port, less, key);
        let before = Trace::unstarted(port).after(less);
        let last = sent.last();
        if last.key == key {
            let own = segments_of(less, key);
            assert(segments_of(sent, key).drop_last() =~= own);
            if last.payload.len() == 0 {
                let d = before.direction(key);
                assert(d.push(last.seq, last.payload).0 =~= d);
            }
        }
    }
}

/// A capture of many flows gives each direction its own records: what is known of a direction is
/// what its own segments make it, in the order they came, whatever else is captured between them;
/// and what a segment completes are the records that it adds to those of its direction, each with
/// the number of its connection, the way the segment goes and the time it was captured.
pub proof fn law_a_segment_completes_records_of_its_direction<T>(
    port: u16,
    sent: Seq<Sent>,
    new: Sent,
    timestamp: T,
    i: int,
)
    requires
        new.key.dst_port == port || new.key.src_port == port,
    ensures
        ({
            let t = Trace::unstarted(port).after(sent);
            let own = segments_of(sent, new.key);
            let all = segments_of(sent.push(new), new.key);
            let done = t.completed(new.key, new.seq, new.payload, timestamp);
            &&& t.direction(new.key) == recovered(own).0
            &&& t.push(new.key, new.seq, new.payload).direction(new.key) == recovered(all).0
            &&& recovered(all).1 == recovered(own).1 + done.map_values(
                |r: TracedRecord<T>| (r.record.ct, r.record.len as int),
            )
            &&& 0 <= i < done.len() ==> {
                &&& done[i].conn == t.conn_of(new.key)
                &&& done[i].record.t == timestamp
                &&& done[i].record.dir == if new.key.dst_port == port {
                    Direction::Up
                } else {
                    Direction::Down
                }
            }
        }),
{
    let t = Trace::unstarted(port).after(sent);
    let own = segments_of(sent, new.key);
    let all = segments_of(sent.push(new), new.key);
    assert(sent.push(new).drop_last() =~= sent);
    assert(all.drop_last() =~= own);
    lemma_direction_of_segments(port, sent, new.key);
    lemma_direction_of_segments(port, sent.push(new), new.key);
    let d = t.direction(new.key);
    let (after, added) = d.push(new.seq, new.payload);
    let done = t.completed(new.key, new.seq, new.payload, timestamp);
    let shape = done.map_values(|r: TracedRecord<T>| (r.record.ct, r.record.len as int));
    if new.payload.len() == 0 {
        assert(added =~= Seq::empty());
        assert(shape =~= added);
    } else {
        let bytes = d.stream.push(new.seq, new.payload).1;
        crate::trace::records::law_framing_accounts_for_every_byte(d.buffered + bytes);
        assert(added.len() == shape.len());
        assert forall|k: int| 0 <= k < added.len() implies added[k] == shape[k] by {
            if !d.gave_up && bytes.len() > 0 {
                assert(added[k] == crate::trace::records::framing(d.buffered + bytes).records[k]);
            }
        }
        assert(shape =~= added);
    }
}

/// The numbers run out only for a connection of which nothing was seen yet, at the last of them:
/// traffic on other ports, segments that carry nothing and known connections are always taken.
pub proof fn law_numbers_run_out_for_new_connections_only(t: Trace, key: FlowKey, payload: Seq<u8>)
    ensures
        t.exhausted_by(key, payload) <==> (key.dst_port == t.port || key.src_port == t.port)
            && payload.len() > 0 && !t.connections.contains_key(client_side(t.port, key))
            && t.next_conn == 0xffff_ffff,
{
}

}
