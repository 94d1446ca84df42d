//! Putting one TCP direction back into the byte stream the TLS layer wrote.
//!
//! Deliberately small. A capture of one's own connection on a quiet link is nearly always in order,
//! so the job is to be honest about the cases that are not: a retransmit must not duplicate bytes,
//! a reordered segment must not truncate the stream, and a gap that cannot be filled must be
//! reported instead of silently concatenated.

use std::collections::BTreeMap;
use vstd::prelude::*;

verus! {

/// One direction of one TCP connection, identified the usual way.
#[derive(Debug, Clone, Copy, PartialEq, Eq, PartialOrd, Ord, Hash)]
pub struct FlowKey {
    pub src: [u8; 16],
    pub dst: [u8; 16],
    pub src_port: u16,
    pub dst_port: u16,
}

/// A byte run handed to the TLS framer, with the capture time of the packet that completed it.
///
/// The clock is the caller's: reassembly carries a timestamp along and never reads it.
#[derive(Debug, Clone, PartialEq)]
pub struct Segment<T> {
    pub timestamp: T,
    pub bytes: Vec<u8>,
}

/// Why a direction stopped producing trustworthy bytes.
#[derive(Debug, Clone, Copy, PartialEq, Eq, Structural)]
pub enum Gap {
    /// Bytes were lost from the capture (not from the network) and the stream cannot be continued.
    Missing { at: u32 },
}

/// How many sequence numbers there are.
pub open spec fn seq_space() -> int {
    0x1_0000_0000
}

/// The sequence number `n` bytes after `a`.
pub open spec fn seq_after(a: u32, n: int) -> u32 {
    ((a + n) % seq_space()) as u32
}

/// How far `a` lies ahead of `b`, walking forward through the sequence space.
pub open spec fn seq_distance(a: u32, b: u32) -> int {
    (a - b) % seq_space()
}

/// Whether `a` comes before `b`: walking forward from `b` to `a` takes at least half the space.
pub open spec fn precedes(a: u32, b: u32) -> bool {
    seq_distance(a, b) >= seq_space() / 2
}

/// Sequence-number comparison that survives the 32-bit wrap (RFC 1982).
pub fn seq_lt(a: u32, b: u32) -> (r: bool)
    ensures
        r == precedes(a, b),
{
    let d: u32 = a.wrapping_sub(b);
    assert((d as i32) < 0 <==> d >= 0x8000_0000u32) by (bit_vector);
    (d as i32) < 0
}

/// Whether `k` is the key of a map that comes first, walking forward from `base`.
pub open spec fn is_nearest(m: Map<u32, Seq<u8>>, base: u32, k: u32) -> bool {
    &&& m.contains_key(k)
    &&& forall|j: u32| #[trigger]
        m.contains_key(j) ==> seq_distance(k, base) <= seq_distance(j, base)
}

/// The key of a finite, non-empty map that comes first, walking forward from `base`.
pub open spec fn nearest_key(m: Map<u32, Seq<u8>>, base: u32) -> u32 {
    choose|k: u32| is_nearest(m, base, k)
}

/// How many bytes the held runs hold together.
#[verifier::opaque]
pub open spec fn held_total(m: Map<u32, Seq<u8>>) -> nat
    decreases m.dom().len(),
    when m.dom().finite()
{
    if m.dom().len() == 0 {
        0
    } else {
        let k = m.dom().choose();
        m[k].len() + held_total(m.remove(k))
    }
}

/// What is left of a run once its first `n` bytes are taken off.
pub open spec fn unseen(bytes: Seq<u8>, n: int) -> Seq<u8> {
    if n < bytes.len() {
        bytes.skip(n)
    } else {
        Seq::empty()
    }
}

/// What comes free when the stream goes on from `base` and has reached `cursor`: the runs still
/// held, the new cursor and the bytes released. Runs are looked at in stream order, and the walk
/// stops at the first one that starts beyond the cursor.
#[verifier::opaque]
pub open spec fn release(held: Map<u32, Seq<u8>>, base: u32, cursor: u32) -> (
    Map<u32, Seq<u8>>,
    u32,
    Seq<u8>,
)
    decreases held.dom().len(),
    when held.dom().finite()
{
    if held.dom().len() == 0 || precedes(cursor, nearest_key(held, base)) {
        (held, cursor, Seq::empty())
    } else {
        proof {
            lemma_nearest_key(held, base);
        }
        let k = nearest_key(held, base);
        let fresh = unseen(held[k], seq_distance(cursor, k));
        let rest = release(held.remove(k), base, seq_after(cursor, fresh.len() as int));
        (rest.0, rest.1, fresh + rest.2)
    }
}

/// What one direction has seen so far.
#[verifier::ext_equal]
pub struct Stream {
    /// The sequence number of the next byte to hand on, once the first segment has arrived.
    pub next: Option<u32>,
    /// Runs that arrived ahead of `next`, by their first sequence number.
    pub held: Map<u32, Seq<u8>>,
    /// How many bytes those runs hold together.
    pub held_bytes: int,
    /// Why the direction stopped, if it did.
    pub gap: Option<Gap>,
}

impl Stream {
    /// A direction of which nothing has been seen.
    pub open spec fn unstarted() -> Stream {
        Stream { next: None, held: Map::empty(), held_bytes: 0, gap: None }
    }

    /// What holds of every direction: what is held is finite, counted and bounded.
    pub open spec fn wf(self) -> bool {
        &&& self.held.dom().finite()
        &&& self.held_bytes == held_total(self.held)
        &&& self.held_bytes <= Reassembler::MAX_HELD_BYTES
    }

    /// The direction after one more segment, and the bytes that became contiguous with it.
    pub open spec fn push(self, seq: u32, payload: Seq<u8>) -> (Stream, Seq<u8>) {
        if self.gap is Some || payload.len() == 0 {
            (self, Seq::empty())
        } else {
            let next = match self.next {
                Some(n) => n,
                None => seq,
            };
            let started = Stream { next: Some(next), ..self };
            let end = seq_after(seq, payload.len() as int);
            if end == next || precedes(end, next) {
                (started, Seq::empty())
            } else if seq == next || precedes(seq, next) {
                started.advance(unseen(payload, seq_distance(next, seq)))
            } else {
                (started.hold(seq, payload), Seq::empty())
            }
        }
    }

    /// The direction once `fresh` continues it, and `fresh` with all that it releases.
    pub open spec fn advance(self, fresh: Seq<u8>) -> (Stream, Seq<u8>) {
        let out = release(self.held, self.next->0, seq_after(self.next->0, fresh.len() as int));
        (
            Stream {
                next: Some(out.1),
                held: out.0,
                held_bytes: held_total(out.0) as int,
                gap: self.gap,
            },
            fresh + out.2,
        )
    }

    /// How many bytes are held under a sequence number.
    pub open spec fn held_at(self, seq: u32) -> int {
        if self.held.contains_key(seq) {
            self.held[seq].len() as int
        } else {
            0
        }
    }

    /// The direction with a run set aside, or broken if that would hold too much. Of two runs at
    /// one sequence number the longer one is kept, so a resend neither loses bytes nor counts
    /// twice.
    pub open spec fn hold(self, seq: u32, payload: Seq<u8>) -> Stream {
        let total = self.held_bytes - self.held_at(seq) + payload.len();
        if self.held_at(seq) >= payload.len() {
            self
        } else if total > Reassembler::MAX_HELD_BYTES {
            Stream { gap: Some(Gap::Missing { at: self.next->0 }), ..self }
        } else {
            Stream { held: self.held.insert(seq, payload), held_bytes: total, ..self }
        }
    }
}

/// Every finite, non-empty map has one key that comes first.
pub proof fn lemma_nearest_key(m: Map<u32, Seq<u8>>, base: u32)
    requires
        m.dom().finite(),
        m.dom().len() > 0,
    ensures
        is_nearest(m, base, nearest_key(m, base)),
        forall|k: u32| is_nearest(m, base, k) ==> k == nearest_key(m, base),
{
    let a = m.dom().choose();
    assert(m.contains_key(a));
    lemma_nearest_below(m, base, a);
}

proof fn lemma_nearest_below(m: Map<u32, Seq<u8>>, base: u32, a: u32)
    requires
        m.contains_key(a),
    ensures
        exists|k: u32| is_nearest(m, base, k),
    decreases seq_distance(a, base),
{
    if exists|b: u32| m.contains_key(b) && seq_distance(b, base) < seq_distance(a, base) {
        let b = choose|b: u32|
            m.contains_key(b) && seq_distance(b, base) < seq_distance(a, base);
        lemma_nearest_below(m, base, b);
    } else {
        assert(is_nearest(m, base, a));
    }
}

proof fn lemma_total_remove(m: Map<u32, Seq<u8>>, k: u32)
    requires
        m.dom().finite(),
        m.contains_key(k),
    ensures
        held_total(m) == m[k].len() + held_total(m.remove(k)),
    decreases m.dom().len(),
{
    reveal(held_total);
    let c = m.dom().choose();
    assert(m.contains_key(c));
    if c != k {
        lemma_total_remove(m.remove(c), k);
        lemma_total_remove(m.remove(k), c);
        assert(m.remove(c).remove(k) =~= m.remove(k).remove(c));
    }
}

proof fn lemma_total_insert(m: Map<u32, Seq<u8>>, k: u32, v: Seq<u8>)
    requires
        m.dom().finite(),
    ensures
        held_total(m.insert(k, v)) == held_total(m) + v.len() - if m.contains_key(k) {
            m[k].len()
        } else {
            0
        },
{
    lemma_total_remove(m.insert(k, v), k);
    assert(m.insert(k, v).remove(k) =~= m.remove(k));
    if m.contains_key(k) {
        lemma_total_remove(m, k);
    } else {
        assert(m.remove(k) =~= m);
    }
}

/// What is released leaves the held runs, and no more: the rest is a part of what was held.
proof fn lemma_release(held: Map<u32, Seq<u8>>, base: u32, cursor: u32)
    requires
        held.dom().finite(),
    ensures
        release(held, base, cursor).0.dom().finite(),
        release(held, base, cursor).0.submap_of(held),
        held_total(release(held, base, cursor).0) <= held_total(held),
    decreases held.dom().len(),
{
    reveal(release);
    if !(held.dom().len() == 0 || precedes(cursor, nearest_key(held, base))) {
        lemma_nearest_key(held, base);
        let k = nearest_key(held, base);
        let fresh = unseen(held[k], seq_distance(cursor, k));
        lemma_total_remove(held, k);
        lemma_release(held.remove(k), base, seq_after(cursor, fresh.len() as int));
    }
}

/// Nothing is released where the walk stops.
proof fn lemma_release_stop(held: Map<u32, Seq<u8>>, base: u32, cursor: u32)
    requires
        held.dom().finite(),
        held.dom().len() == 0 || precedes(cursor, nearest_key(held, base)),
    ensures
        release(held, base, cursor) == (held, cursor, Seq::<u8>::empty()),
{
    reveal(release);
}

/// One run released: the rest comes behind it.
proof fn lemma_release_step(held: Map<u32, Seq<u8>>, base: u32, cursor: u32, seen: Seq<u8>)
    requires
        held.dom().finite(),
        held.dom().len() > 0,
        !precedes(cursor, nearest_key(held, base)),
    ensures
        ({
            let k = nearest_key(held, base);
            let fresh = unseen(held[k], seq_distance(cursor, k));
            let rest = release(held.remove(k), base, seq_after(cursor, fresh.len() as int));
            &&& release(held, base, cursor) == (rest.0, rest.1, fresh + rest.2)
            &&& seen + release(held, base, cursor).2 == seen + fresh + rest.2
        }),
{
    reveal(release);
    lemma_nearest_key(held, base);
    let k = nearest_key(held, base);
    let fresh = unseen(held[k], seq_distance(cursor, k));
    let rest = release(held.remove(k), base, seq_after(cursor, fresh.len() as int));
    assert(seen + (fresh + rest.2) =~= seen + fresh + rest.2);
}

/// No segment breaks the accounting.
proof fn lemma_push_wf(m: Stream, seq: u32, payload: Seq<u8>)
    requires
        m.wf(),
    ensures
        m.push(seq, payload).0.wf(),
{
    let next = match m.next {
        Some(n) => n,
        None => seq,
    };
    let started = Stream { next: Some(next), ..m };
    let fresh = unseen(payload, seq_distance(next, seq));
    lemma_release(started.held, next, seq_after(next, fresh.len() as int));
    lemma_total_insert(m.held, seq, payload);
}

/// Reassembles one direction.
#[derive(Debug)]
pub struct Reassembler {
    next_seq: Option<u32>,
    held: BTreeMap<u32, Vec<u8>>,
    /// Bytes held out of order, so a pathological capture cannot grow this without bound.
    held_bytes: usize,
    gap: Option<Gap>,
}

impl View for Reassembler {
    type V = Stream;

    closed spec fn view(&self) -> Stream {
        Stream {
            next: self.next_seq,
            held: runs(self.held@),
            held_bytes: self.held_bytes as int,
            gap: self.gap,
        }
    }
}

impl Default for Reassembler {
    fn default() -> (r: Self)
        ensures
            r@ == Stream::unstarted(),
            r@.wf(),
    {
        let r = Reassembler { next_seq: None, held: BTreeMap::new(), held_bytes: 0, gap: None };
        proof {
            reveal(held_total);
            assert(r@.held =~= Map::empty());
        }
        r
    }
}

/// The key that comes first, walking forward from `base`, if there is one.
fn first_key(m: &BTreeMap<u32, Vec<u8>>, base: u32) -> (r: Option<u32>)
    ensures
        r is None <==> m@.dom().len() == 0,
        r matches Some(k) ==> m@.contains_key(k) && forall|j: u32| #[trigger]
            m@.contains_key(j) ==> seq_distance(k, base) <= seq_distance(j, base),
{
    broadcast use vstd::std_specs::btree::group_btree_axioms;
    broadcast use vstd::laws_cmp::group_laws_cmp;

    assert(vstd::laws_cmp::obeys_cmp::<u32>());
    let mut best: Option<u32> = None;
    for kv in it: m.iter()
        invariant
            it.seq() == vstd::std_specs::iter::IteratorSpec::remaining(
                &vstd::std_specs::btree::spec_btree_map_iter(m),
            ),
            vstd::laws_cmp::obeys_cmp::<u32>(),
            best is None <==> it.index() == 0,
            best matches Some(k) ==> m@.contains_key(k) && forall|n: int|
                0 <= n < it.index() ==> seq_distance(k, base) <= seq_distance(
                    *(#[trigger] it.seq()[n]).0,
                    base,
                ),
    {
        let k: u32 = *kv.0;
        assert(m@.contains_key(k));
        match best {
            Some(b) => {
                if seq_ahead(k, base) < seq_ahead(b, base) {
                    best = Some(k);
                }
            },
            None => {
                best = Some(k);
            },
        }
    }
    best
}

/// The sequence number `n` bytes after `a`.
fn seq_add(a: u32, n: usize) -> (r: u32)
    ensures
        r == seq_after(a, n as int),
{
    let wide: u64 = n as u64;
    assert(wide as u32 == wide % 0x1_0000_0000) by (bit_vector);
    a.wrapping_add(wide as u32)
}

/// How far `a` lies ahead of `b`.
fn seq_ahead(a: u32, b: u32) -> (r: usize)
    ensures
        r == seq_distance(a, b),
{
    a.wrapping_sub(b) as usize
}

/// How many bytes are kept under a sequence number.
fn kept_at(held: &BTreeMap<u32, Vec<u8>>, seq: u32) -> (r: usize)
    ensures
        held@.contains_key(seq) ==> r == held@[seq]@.len(),
        !held@.contains_key(seq) ==> r == 0,
{
    broadcast use vstd::std_specs::btree::group_btree_axioms;
    broadcast use vstd::laws_cmp::group_laws_cmp;

    assert(vstd::laws_cmp::obeys_cmp::<u32>());
    match held.get(&seq) {
        Some(run) => run.len(),
        None => 0,
    }
}

/// Keeps a run under its first sequence number, in place of one that is kept there already.
fn keep(held: &mut BTreeMap<u32, Vec<u8>>, seq: u32, payload: &[u8])
    ensures
        runs(final(held)@) == runs(old(held)@).insert(seq, payload@),
{
    broadcast use vstd::std_specs::btree::group_btree_axioms;
    broadcast use vstd::laws_cmp::group_laws_cmp;

    assert(vstd::laws_cmp::obeys_cmp::<u32>());
    held.insert(seq, vstd::slice::slice_to_vec(payload));
    assert(runs(held@) =~= runs(old(held)@).insert(seq, payload@));
}

/// The held runs, byte for byte.
spec fn runs(held: Map<u32, Vec<u8>>) -> Map<u32, Seq<u8>> {
    held.map_values(|v: Vec<u8>| v@)
}

/// Takes the run that comes first out, walking forward from `base`, unless it starts beyond
/// `cursor`.
fn take_reached(held: &mut BTreeMap<u32, Vec<u8>>, base: u32, cursor: u32) -> (r: Option<
    (u32, Vec<u8>),
>)
    ensures
        r is None <==> runs(old(held)@).dom().len() == 0 || precedes(
            cursor,
            nearest_key(runs(old(held)@), base),
        ),
        r is None ==> final(held)@ == old(held)@,
        r matches Some((k, run)) ==> {
            &&& k == nearest_key(runs(old(held)@), base)
            &&& runs(old(held)@).contains_key(k)
            &&& run@ == runs(old(held)@)[k]
            &&& runs(final(held)@) == runs(old(held)@).remove(k)
        },
{
    broadcast use vstd::std_specs::btree::group_btree_axioms;
    broadcast use vstd::laws_cmp::group_laws_cmp;

    assert(vstd::laws_cmp::obeys_cmp::<u32>());
    let ghost before = runs(held@);
    assert(before.dom() =~= held@.dom());
    match first_key(held, base) {
        None => None,
        Some(k) => {
            proof {
                assert forall|j: u32| #[trigger] before.contains_key(j) implies seq_distance(k, base)
                    <= seq_distance(j, base) by {
                    assert(held@.contains_key(j));
                }
                assert(is_nearest(before, base, k));
                lemma_nearest_key(before, base);
            }
            if seq_lt(cursor, k) {
                return None;
            }
            match held.remove(&k) {
                None => None,
                Some(run) => {
                    assert(runs(held@) =~= before.remove(k));
                    Some((k, run))
                },
            }
        },
    }
}

/// Appends what is left of a run once its first `skip` bytes are taken off.
fn append_unseen(out: &mut Vec<u8>, run: &[u8], skip: usize) -> (n: usize)
    ensures
        final(out)@ == old(out)@ + unseen(run@, skip as int),
        n == unseen(run@, skip as int).len(),
{
    if skip < run.len() {
        let tail: &[u8] = vstd::slice::slice_subrange(run, skip, run.len());
        let ghost before = out@;
        out.extend_from_slice(tail);
        assert(out@ =~= before + unseen(run@, skip as int));
        run.len() - skip
    } else {
        assert(out@ + Seq::<u8>::empty() =~= out@);
        0
    }
}

/// Moves the held runs that `cursor` has reached to the end of `out`, in stream order from `base`
/// on. Returns the new cursor and what is left of `held_bytes`.
fn drain(
    held: &mut BTreeMap<u32, Vec<u8>>,
    held_bytes: usize,
    base: u32,
    cursor: u32,
    out: &mut Vec<u8>,
) -> (r: (u32, usize))
    requires
        runs(old(held)@).dom().finite(),
        held_total(runs(old(held)@)) == held_bytes,
    ensures
        runs(final(held)@) == release(runs(old(held)@), base, cursor).0,
        final(out)@ == old(out)@ + release(runs(old(held)@), base, cursor).2,
        r.0 == release(runs(old(held)@), base, cursor).1,
        r.1 == held_total(runs(final(held)@)),
{
    let ghost start = runs(held@);
    let ghost goal = release(start, base, cursor);
    let mut at: u32 = cursor;
    let mut left: usize = held_bytes;
    loop
        invariant
            start == runs(old(held)@),
            goal == release(start, base, cursor),
            runs(held@).dom().finite(),
            release(runs(held@), base, at).0 == goal.0,
            release(runs(held@), base, at).1 == goal.1,
            out@ + release(runs(held@), base, at).2 == old(out)@ + goal.2,
            left == held_total(runs(held@)),
        decreases runs(held@).dom().len(),
    {
        let ghost now = runs(held@);
        let ghost seen = out@;
        match take_reached(held, base, at) {
            None => {
                proof {
                    lemma_release_stop(now, base, at);
                    assert(out@ + Seq::<u8>::empty() =~= out@);
                }
                return (at, left);
            },
            Some((k, run)) => {
                proof {
                    lemma_total_remove(now, k);
                    lemma_release_step(now, base, at, seen);
                }
                left = left - run.len();
                let skip: usize = seq_ahead(at, k);
                let n: usize = append_unseen(out, run.as_slice(), skip);
                at = seq_add(at, n);
            },
        }
    }
}

impl Reassembler {
    /// Out-of-order bytes we are willing to hold before declaring the stream broken. A real
    /// reorder is a segment or two; anything beyond this is a capture that should not be trusted.
    pub const MAX_HELD_BYTES: usize = 1_048_576;

    /// Offers one TCP segment. Returns the bytes that are now contiguous, oldest first.
    ///
    /// The returned timestamp is the capture time of the packet that made those bytes available:
    /// the moment the data existed on the wire, which is what an observer keys on.
    pub fn push<T>(&mut self, seq: u32, payload: &[u8], timestamp: T) -> (r: Option<Segment<T>>)
        requires
            old(self)@.wf(),
        ensures
            final(self)@ == old(self)@.push(seq, payload@).0,
            final(self)@.wf(),
            r is None <==> old(self)@.push(seq, payload@).1.len() == 0,
            r matches Some(segment) ==> segment.bytes@ == old(self)@.push(seq, payload@).1
                && segment.timestamp == timestamp,
    {
        proof {
            lemma_push_wf(self@, seq, payload@);
        }
        if self.gap.is_some() || payload.len() == 0 {
            return None;
        }
        let next: u32 = match self.next_seq {
            Some(n) => n,
            None => seq,
        };
        self.next_seq = Some(next);
        let ghost started = self@;

        // Wholly before what has been emitted already: a retransmit, drop it.
        let end: u32 = seq_add(seq, payload.len());
        if end == next || seq_lt(end, next) {
            return None;
        }
        if seq != next && !seq_lt(seq, next) {
            // Ahead of the stream: hold it and wait for the hole to be filled.
            let kept: usize = kept_at(&self.held, seq);
            if kept >= payload.len() {
                return None;
            }
            proof {
                if started.held.contains_key(seq) {
                    lemma_total_remove(started.held, seq);
                }
            }
            let others: usize = self.held_bytes - kept;
            if payload.len() > Self::MAX_HELD_BYTES - others {
                self.gap = Some(Gap::Missing { at: next });
                return None;
            }
            keep(&mut self.held, seq, payload);
            self.held_bytes = others + payload.len();
            return None;
        }
        // Keep only the part that has not been seen: all of it, or the tail of a retransmit.
        let already: usize = seq_ahead(next, seq);
        let mut out: Vec<u8> = Vec::new();
        let n: usize = append_unseen(&mut out, payload, already);
        assert(out@ =~= unseen(payload@, already as int));
        let (cursor, left): (u32, usize) = drain(
            &mut self.held,
            self.held_bytes,
            next,
            seq_add(next, n),
            &mut out,
        );
        self.next_seq = Some(cursor);
        self.held_bytes = left;
        if out.len() == 0 {
            None
        } else {
            Some(Segment { timestamp, bytes: out })
        }
    }

    /// The gap that stopped this direction, if one did.
    pub fn gap(&self) -> (r: Option<Gap>)
        ensures
            r == self@.gap,
    {
        self.gap
    }
}

/// Half the sequence space: within it, which of two sequence numbers comes first is decided.
pub open spec fn half_space() -> int {
    0x8000_0000
}

/// Whether `bytes`, sent under sequence number `seq`, are the bytes of `stream` from position `p`
/// on, where the stream's first byte has sequence number `origin`. What lies before the stream's
/// first byte may be anything.
pub open spec fn lies_at(stream: Seq<u8>, origin: u32, seq: u32, bytes: Seq<u8>, p: int) -> bool {
    &&& p + bytes.len() <= stream.len()
    &&& seq == seq_after(origin, p)
    &&& forall|i: int| 0 <= i < bytes.len() && 0 <= p + i ==> #[trigger] bytes[i] == stream[p + i]
}

/// Whether the run `p .. p + len` lies within half the sequence space of position `pos`.
pub open spec fn is_near(pos: int, p: int, len: int) -> bool {
    pos - half_space() < p && p + len < pos + half_space()
}

/// Whether every held run is a piece of `stream` that starts behind position `pos` and lies near
/// position `from`.
pub open spec fn all_wait(
    held: Map<u32, Seq<u8>>,
    stream: Seq<u8>,
    origin: u32,
    from: int,
    pos: int,
) -> bool {
    forall|k: u32| #[trigger]
        held.contains_key(k) ==> exists|q: int| #[trigger]
            lies_at(stream, origin, k, held[k], q) && pos < q && is_near(
                from,
                q,
                held[k].len() as int,
            )
}

/// Whether a direction has handed on the bytes of `stream` before `pos`, goes on from there, and
/// holds nothing that does not lie beyond a hole.
pub open spec fn tracks(m: Stream, stream: Seq<u8>, origin: u32, pos: int) -> bool {
    &&& m.wf()
    &&& m.gap is None
    &&& 0 <= pos <= stream.len()
    &&& m.next == Some(seq_after(origin, pos))
    &&& all_wait(m.held, stream, origin, pos, pos)
}

proof fn lemma_distance(origin: u32, a: int, b: int)
    requires
        -half_space() < a - b < half_space(),
    ensures
        seq_distance(seq_after(origin, a), seq_after(origin, b)) == if a >= b {
            a - b
        } else {
            a - b + seq_space()
        },
        precedes(seq_after(origin, a), seq_after(origin, b)) <==> a < b,
        seq_after(origin, a) == seq_after(origin, b) <==> a == b,
{
}

proof fn lemma_after_after(origin: u32, a: int, n: int)
    ensures
        seq_after(seq_after(origin, a), n) == seq_after(origin, a + n),
{
}

/// Where a waiting run lies.
spec fn place_of(held: Map<u32, Seq<u8>>, stream: Seq<u8>, origin: u32, from: int, pos: int, k: u32) -> int {
    choose|q: int| #[trigger]
        lies_at(stream, origin, k, held[k], q) && pos < q && is_near(from, q, held[k].len() as int)
}

/// Whether every run of `held` that is not among those left ends at or before `end`.
spec fn all_reached(
    held: Map<u32, Seq<u8>>,
    left: Map<u32, Seq<u8>>,
    stream: Seq<u8>,
    origin: u32,
    pos: int,
    end: int,
) -> bool {
    forall|k: u32| #[trigger]
        held.contains_key(k) && !left.contains_key(k) ==> place_of(
            held,
            stream,
            origin,
            pos,
            pos,
            k,
        ) + held[k].len() <= end
}

/// Where the nearest run lies beyond `c`, all runs do.
proof fn lemma_all_beyond(
    held: Map<u32, Seq<u8>>,
    stream: Seq<u8>,
    origin: u32,
    pos: int,
    c: int,
)
    requires
        held.dom().finite(),
        held.dom().len() > 0,
        pos <= c < pos + half_space(),
        all_wait(held, stream, origin, pos, pos),
        precedes(seq_after(origin, c), nearest_key(held, seq_after(origin, pos))),
    ensures
        all_wait(held, stream, origin, pos, c),
{
    let base = seq_after(origin, pos);
    lemma_nearest_key(held, base);
    let k = nearest_key(held, base);
    let p = place_of(held, stream, origin, pos, pos, k);
    assert(lies_at(stream, origin, k, held[k], p) && pos < p);
    lemma_distance(origin, c, p);
    lemma_distance(origin, p, pos);
    assert forall|j: u32| #[trigger] held.contains_key(j) implies exists|q: int| #[trigger]
        lies_at(stream, origin, j, held[j], q) && c < q && is_near(pos, q, held[j].len() as int) by {
        let q = place_of(held, stream, origin, pos, pos, j);
        assert(lies_at(stream, origin, j, held[j], q) && pos < q);
        lemma_distance(origin, q, pos);
        assert(seq_distance(k, base) <= seq_distance(j, base));
    }
}

/// Without one run the others wait where they did.
proof fn lemma_wait_less(
    held: Map<u32, Seq<u8>>,
    stream: Seq<u8>,
    origin: u32,
    pos: int,
    k: u32,
)
    requires
        all_wait(held, stream, origin, pos, pos),
    ensures
        all_wait(held.remove(k), stream, origin, pos, pos),
        forall|j: u32| #[trigger]
            held.contains_key(j) && j != k ==> place_of(
                held.remove(k),
                stream,
                origin,
                pos,
                pos,
                j,
            ) == place_of(held, stream, origin, pos, pos, j),
{
    let less = held.remove(k);
    assert forall|j: u32| #[trigger] less.contains_key(j) implies exists|q: int| #[trigger]
        lies_at(stream, origin, j, less[j], q) && pos < q && is_near(
            pos,
            q,
            less[j].len() as int,
        ) by {
        let q = place_of(held, stream, origin, pos, pos, j);
        assert(held.contains_key(j) && less[j] == held[j]);
        assert(lies_at(stream, origin, j, less[j], q));
    }
}

/// The run that the cursor `c` has reached continues the stream from there.
proof fn lemma_run_continues(
    run: Seq<u8>,
    stream: Seq<u8>,
    origin: u32,
    k: u32,
    p: int,
    c: int,
)
    requires
        lies_at(stream, origin, k, run, p),
        0 <= p <= c <= stream.len(),
        c - p < half_space(),
    ensures
        ({
            let fresh = unseen(run, seq_distance(seq_after(origin, c), k));
            &&& fresh == stream.subrange(c, c + fresh.len())
            &&& c + fresh.len() <= stream.len()
            &&& p + run.len() <= c + fresh.len()
            &&& c + fresh.len() == c || c + fresh.len() == p + run.len()
        }),
{
    lemma_distance(origin, c, p);
    let fresh = unseen(run, c - p);
    assert(fresh =~= stream.subrange(c, c + fresh.len()));
}

#[verifier::spinoff_prover]
proof fn lemma_release_follows(
    held: Map<u32, Seq<u8>>,
    stream: Seq<u8>,
    origin: u32,
    pos: int,
    c: int,
)
    requires
        held.dom().finite(),
        0 <= pos <= c <= stream.len(),
        c < pos + half_space(),
        all_wait(held, stream, origin, pos, pos),
    ensures
        ({
            let r = release(held, seq_after(origin, pos), seq_after(origin, c));
            let end = c + r.2.len();
            &&& end <= stream.len()
            &&& end < pos + half_space()
            &&& r.2 == stream.subrange(c, end)
            &&& r.1 == seq_after(origin, end)
            &&& all_wait(r.0, stream, origin, pos, end)
            &&& r.0.submap_of(held)
            &&& all_reached(held, r.0, stream, origin, pos, end)
        }),
    decreases held.dom().len(),
{
    let base = seq_after(origin, pos);
    let cursor = seq_after(origin, c);
    assert(stream.subrange(c, c) =~= Seq::<u8>::empty());
    if held.dom().len() == 0 {
        lemma_release_stop(held, base, cursor);
        assert(all_wait(held, stream, origin, pos, c)) by {
            assert(held.dom() =~= Set::empty());
        }
    } else if precedes(cursor, nearest_key(held, base)) {
        lemma_release_stop(held, base, cursor);
        lemma_all_beyond(held, stream, origin, pos, c);
    } else {
        lemma_nearest_key(held, base);
        let k = nearest_key(held, base);
        let p = place_of(held, stream, origin, pos, pos, k);
        assert(lies_at(stream, origin, k, held[k], p) && pos < p);
        lemma_distance(origin, c, p);
        lemma_release_step(held, base, cursor, Seq::empty());
        lemma_run_continues(held[k], stream, origin, k, p, c);
        let fresh = unseen(held[k], seq_distance(cursor, k));
        let c2 = c + fresh.len();
        lemma_after_after(origin, c, fresh.len() as int);
        let less = held.remove(k);
        lemma_wait_less(held, stream, origin, pos, k);
        lemma_release_follows(less, stream, origin, pos, c2);
        let rest = release(less, base, seq_after(origin, c2));
        let end = c2 + rest.2.len();
        assert(fresh + rest.2 =~= stream.subrange(c, end));
        assert(all_reached(held, rest.0, stream, origin, pos, end)) by {
            assert forall|j: u32| #[trigger]
                held.contains_key(j) && !rest.0.contains_key(j) implies place_of(
                held,
                stream,
                origin,
                pos,
                pos,
                j,
            ) + held[j].len() <= end by {
                if j != k {
                    assert(less.contains_key(j) && less[j] == held[j]);
                }
            }
        }
    }
}

/// Whatever segments of one stream arrive, reordered, repeated or overlapping, what is handed on
/// is the stream itself: each push hands on exactly the bytes that follow those handed on before,
/// so nothing is duplicated, skipped or swapped. As soon as its predecessors are there a reordered
/// segment is handed on, so that all that is still held lies beyond a hole.
///
/// A segment has to lie within half the sequence space of the stream's end, across a wrap or not:
/// beyond that a sequence number does not say which of two bytes it stands for.
#[verifier::spinoff_prover]
pub proof fn law_push_continues_the_stream(
    m: Stream,
    stream: Seq<u8>,
    origin: u32,
    pos: int,
    seq: u32,
    payload: Seq<u8>,
    p: int,
)
    requires
        tracks(m, stream, origin, pos),
        lies_at(stream, origin, seq, payload, p),
        is_near(pos, p, payload.len() as int),
    ensures
        ({
            let (after, out) = m.push(seq, payload);
            &&& pos + out.len() <= stream.len()
            &&& out == stream.subrange(pos, pos + out.len())
            &&& after.gap is None ==> tracks(after, stream, origin, pos + out.len())
            &&& after.gap is Some ==> out.len() == 0
        }),
{
    lemma_push_wf(m, seq, payload);
    let (after, out) = m.push(seq, payload);
    assert(stream.subrange(pos, pos) =~= Seq::<u8>::empty());
    if payload.len() > 0 {
        let end = p + payload.len();
        lemma_distance(origin, end, pos);
        lemma_distance(origin, p, pos);
        lemma_distance(origin, pos, p);
        lemma_after_after(origin, p, payload.len() as int);
        if end <= pos {
        } else if p <= pos {
            let fresh = unseen(payload, pos - p);
            assert(fresh =~= stream.subrange(pos, end));
            lemma_after_after(origin, pos, fresh.len() as int);
            lemma_release_follows(m.held, stream, origin, pos, end);
            let rest = release(m.held, m.next->0, seq_after(origin, end));
            assert(fresh + rest.2 =~= stream.subrange(pos, end + rest.2.len()));
            lemma_wait_later(rest.0, stream, origin, pos, end + rest.2.len());
        } else if after.gap is None {
            assert forall|j: u32| #[trigger] after.held.contains_key(j) implies exists|q: int|
                #[trigger]
                lies_at(stream, origin, j, after.held[j], q) && pos < q && is_near(
                    pos,
                    q,
                    after.held[j].len() as int,
                ) by {
                if j == seq && after.held[j] == payload {
                    assert(lies_at(stream, origin, j, after.held[j], p));
                } else {
                    assert(m.held.contains_key(j) && after.held[j] == m.held[j]);
                    let q = place_of(m.held, stream, origin, pos, pos, j);
                    assert(lies_at(stream, origin, j, after.held[j], q));
                }
            }
        }
    }
}

/// What waits near one position waits near a later one.
proof fn lemma_wait_later(
    held: Map<u32, Seq<u8>>,
    stream: Seq<u8>,
    origin: u32,
    from: int,
    pos: int,
)
    requires
        from <= pos,
        all_wait(held, stream, origin, from, pos),
    ensures
        all_wait(held, stream, origin, pos, pos),
{
    assert forall|j: u32| #[trigger] held.contains_key(j) implies exists|q: int| #[trigger]
        lies_at(stream, origin, j, held[j], q) && pos < q && is_near(pos, q, held[j].len() as int) by {
        let q = place_of(held, stream, origin, from, pos, j);
        assert(lies_at(stream, origin, j, held[j], q));
    }
}

/// A segment as it was offered, and the position in the stream that its sequence number stands for.
pub struct Offer {
    pub seq: u32,
    pub payload: Seq<u8>,
    pub at: int,
}

/// Whether all of an offered segment was handed on, or it is held beyond a hole.
pub open spec fn is_accounted(o: Offer, m: Stream, pos: int) -> bool {
    ||| o.at + o.payload.len() <= pos
    ||| {
        &&& pos < o.at
        &&& is_near(pos, o.at, o.payload.len() as int)
        &&& m.held_at(o.seq) >= o.payload.len() > 0
    }
}

/// A reordered segment does not truncate the stream: whatever is offered is either handed on to its
/// end, or waits beyond a hole, and what waits is not lost by what comes after it. So every offered
/// segment that starts at or before the stream's end also ends at or before it.
#[verifier::spinoff_prover]
pub proof fn law_push_holds_nothing_back(
    m: Stream,
    stream: Seq<u8>,
    origin: u32,
    pos: int,
    new: Offer,
    earlier: Offer,
)
    requires
        tracks(m, stream, origin, pos),
        lies_at(stream, origin, new.seq, new.payload, new.at),
        is_near(pos, new.at, new.payload.len() as int),
        new.payload.len() > 0,
        earlier.seq == seq_after(origin, earlier.at),
        is_accounted(earlier, m, pos),
    ensures
        ({
            let (after, out) = m.push(new.seq, new.payload);
            after.gap is None ==> {
                &&& is_accounted(new, after, pos + out.len())
                &&& is_accounted(earlier, after, pos + out.len())
            }
        }),
{
    let (after, out) = m.push(new.seq, new.payload);
    let (seq, payload, p) = (new.seq, new.payload, new.at);
    let end = p + payload.len();
    lemma_distance(origin, end, pos);
    lemma_distance(origin, p, pos);
    lemma_distance(origin, pos, p);
    lemma_after_after(origin, p, payload.len() as int);
    if end <= pos {
    } else if p <= pos {
        let fresh = unseen(payload, pos - p);
        lemma_after_after(origin, pos, fresh.len() as int);
        lemma_release_follows(m.held, stream, origin, pos, end);
        let rest = release(m.held, m.next->0, seq_after(origin, end));
        if earlier.at + earlier.payload.len() > pos {
            let k = earlier.seq;
            let q = place_of(m.held, stream, origin, pos, pos, k);
            assert(m.held.contains_key(k));
            assert(lies_at(stream, origin, k, m.held[k], q) && pos < q);
            lemma_distance(origin, q, earlier.at);
            if rest.0.contains_key(k) {
                let later = end + rest.2.len();
                let r = place_of(rest.0, stream, origin, pos, later, k);
                assert(lies_at(stream, origin, k, rest.0[k], r) && later < r);
                lemma_distance(origin, r, earlier.at);
                assert(rest.0[k] == m.held[k]);
            }
        }
    }
}

/// What a direction has seen and handed on after some segments, one after the other.
pub open spec fn pushed(m: Stream, offers: Seq<Offer>) -> (Stream, Seq<u8>)
    decreases offers.len(),
{
    if offers.len() == 0 {
        (m, Seq::empty())
    } else {
        let (before, out) = pushed(m, offers.drop_last());
        let (after, more) = before.push(offers.last().seq, offers.last().payload);
        (after, out + more)
    }
}

/// Whether all segments that carry something are pieces of `stream`, each within half the sequence
/// space of what had been handed on when it was offered, the first of them at the stream's origin.
pub open spec fn all_from(stream: Seq<u8>, origin: u32, offers: Seq<Offer>) -> bool {
    forall|i: int|
        0 <= i < offers.len() && (#[trigger] offers[i]).payload.len() > 0 ==> {
            let o = offers[i];
            let pos = pushed(Stream::unstarted(), offers.take(i)).1.len() as int;
            &&& lies_at(stream, origin, o.seq, o.payload, o.at)
            &&& is_near(pos, o.at, o.payload.len() as int)
            &&& all_empty(offers.take(i)) ==> o.at == 0
        }
}

/// Whether no segment carries anything.
pub open spec fn all_empty(offers: Seq<Offer>) -> bool {
    forall|i: int| 0 <= i < offers.len() ==> (#[trigger] offers[i]).payload.len() == 0
}

/// However the segments of a stream are offered, all that a direction hands on, taken together, is
/// a beginning of the stream: no byte twice, none skipped, none out of order, also across the wrap.
/// While the direction is not broken, every segment that starts at or before what was handed on
/// has been handed on to its end.
pub proof fn law_pushes_give_a_beginning_of_the_stream(
    stream: Seq<u8>,
    origin: u32,
    offers: Seq<Offer>,
)
    requires
        all_from(stream, origin, offers),
    ensures
        ({
            let (m, out) = pushed(Stream::unstarted(), offers);
            &&& m.wf()
            &&& out.len() <= stream.len()
            &&& out == stream.take(out.len() as int)
            &&& m.gap is None && !all_empty(offers) ==> tracks(m, stream, origin, out.len() as int)
            &&& m.gap is None ==> forall|i: int|
                0 <= i < offers.len() && (#[trigger] offers[i]).payload.len() > 0 && offers[i].at
                    <= out.len() ==> offers[i].at + offers[i].payload.len() <= out.len()
        }),
{
    lemma_pushes(stream, origin, offers);
}

proof fn lemma_all_from_less(stream: Seq<u8>, origin: u32, offers: Seq<Offer>)
    requires
        all_from(stream, origin, offers),
        offers.len() > 0,
    ensures
        all_from(stream, origin, offers.drop_last()),
        offers.drop_last() == offers.take(offers.len() - 1),
        all_empty(offers) <==> all_empty(offers.drop_last()) && offers.last().payload.len() == 0,
{
    let less = offers.drop_last();
    assert(less =~= offers.take(offers.len() - 1));
    assert forall|i: int| 0 <= i < less.len() && (#[trigger] less[i]).payload.len() > 0 implies {
        let o = less[i];
        let pos = pushed(Stream::unstarted(), less.take(i)).1.len() as int;
        &&& lies_at(stream, origin, o.seq, o.payload, o.at)
        &&& is_near(pos, o.at, o.payload.len() as int)
        &&& all_empty(less.take(i)) ==> o.at == 0
    } by {
        assert(offers[i] == less[i]);
        assert(less.take(i) =~= offers.take(i));
    }
    if all_empty(offers) {
        assert(offers[offers.len() - 1].payload.len() == 0);
        assert forall|i: int| 0 <= i < less.len() implies (#[trigger] less[i]).payload.len() == 0 by {
            assert(less[i] == offers[i]);
        }
    }
    if all_empty(less) && offers.last().payload.len() == 0 {
        assert forall|i: int| 0 <= i < offers.len() implies (#[trigger] offers[i]).payload.len()
            == 0 by {
            if i < less.len() {
                assert(less[i] == offers[i]);
            }
        }
    }
}

/// Whether the sequence number of every segment that carries something stands for its position.
spec fn all_numbered(offers: Seq<Offer>, origin: u32) -> bool {
    forall|i: int|
        0 <= i < offers.len() && (#[trigger] offers[i]).payload.len() > 0 ==> offers[i].seq
            == seq_after(origin, offers[i].at)
}

/// Whether every segment that carries something was handed on or is held.
spec fn all_accounted(offers: Seq<Offer>, m: Stream, pos: int) -> bool {
    forall|i: int|
        0 <= i < offers.len() && (#[trigger] offers[i]).payload.len() > 0 ==> is_accounted(
            offers[i],
            m,
            pos,
        )
}

#[verifier::spinoff_prover]
proof fn lemma_accounted_step(
    before: Stream,
    stream: Seq<u8>,
    origin: u32,
    pos: int,
    offers: Seq<Offer>,
)
    requires
        offers.len() > 0,
        all_numbered(offers, origin),
        tracks(before, stream, origin, pos),
        all_accounted(offers.drop_last(), before, pos),
        offers.last().payload.len() > 0,
        lies_at(stream, origin, offers.last().seq, offers.last().payload, offers.last().at),
        is_near(pos, offers.last().at, offers.last().payload.len() as int),
    ensures
        ({
            let (after, more) = before.push(offers.last().seq, offers.last().payload);
            after.gap is None ==> all_accounted(offers, after, pos + more.len())
        }),
{
    let o = offers.last();
    let less = offers.drop_last();
    let (after, more) = before.push(o.seq, o.payload);
    if after.gap is None {
        let none = Offer { seq: seq_after(origin, 0), payload: Seq::empty(), at: 0 };
        assert forall|i: int| 0 <= i < offers.len() && (
        #[trigger] offers[i]).payload.len() > 0 implies is_accounted(
            offers[i],
            after,
            pos + more.len(),
        ) by {
            if i < less.len() {
                assert(less[i] == offers[i]);
                law_push_holds_nothing_back(before, stream, origin, pos, o, offers[i]);
            } else {
                law_push_holds_nothing_back(before, stream, origin, pos, o, none);
            }
        }
    }
}

proof fn lemma_unstarted_wf()
    ensures
        Stream::unstarted().wf(),
{
    reveal(held_total);
}

/// What holds of a direction and of what it has handed on after some segments of a stream.
spec fn follows(stream: Seq<u8>, origin: u32, offers: Seq<Offer>, m: Stream, out: Seq<u8>) -> bool {
    let pos = out.len() as int;
    &&& m.wf()
    &&& pos <= stream.len()
    &&& out == stream.take(pos)
    &&& all_empty(offers) ==> m == Stream::unstarted() && pos == 0
    &&& m.gap is None && !all_empty(offers) ==> tracks(m, stream, origin, pos)
    &&& m.gap is None ==> all_accounted(offers, m, pos)
}

proof fn lemma_idle_step(
    stream: Seq<u8>,
    origin: u32,
    offers: Seq<Offer>,
    before: Stream,
    out: Seq<u8>,
)
    requires
        offers.len() > 0,
        follows(stream, origin, offers.drop_last(), before, out),
        all_empty(offers) <==> all_empty(offers.drop_last()) && offers.last().payload.len() == 0,
        offers.last().payload.len() == 0 || before.gap is Some,
    ensures
        ({
            let (after, more) = before.push(offers.last().seq, offers.last().payload);
            follows(stream, origin, offers, after, out + more)
        }),
{
    let less = offers.drop_last();
    let (after, more) = before.push(offers.last().seq, offers.last().payload);
    assert(out + more =~= out);
    assert(after == before);
    if before.gap is None {
        assert forall|i: int| 0 <= i < offers.len() && (
        #[trigger] offers[i]).payload.len() > 0 implies is_accounted(
            offers[i],
            after,
            out.len() as int,
        ) by {
            assert(less[i] == offers[i]);
        }
    }
}

#[verifier::spinoff_prover]
proof fn lemma_first_step(
    stream: Seq<u8>,
    origin: u32,
    offers: Seq<Offer>,
    before: Stream,
    out: Seq<u8>,
)
    requires
        offers.len() > 0,
        follows(stream, origin, offers.drop_last(), before, out),
        all_empty(offers.drop_last()),
        !all_empty(offers),
        offers.last().payload.len() > 0,
        offers.last().at == 0,
        lies_at(stream, origin, offers.last().seq, offers.last().payload, 0),
        is_near(0, 0, offers.last().payload.len() as int),
    ensures
        ({
            let (after, more) = before.push(offers.last().seq, offers.last().payload);
            follows(stream, origin, offers, after, out + more)
        }),
{
    let less = offers.drop_last();
    let o = offers.last();
    let (after, more) = before.push(o.seq, o.payload);
    assert(seq_after(origin, 0) == origin);
    law_first_segment_is_the_origin(stream, o.seq, o.payload);
    assert(out + more =~= o.payload);
    assert(o.payload =~= stream.take(o.payload.len() as int));
    assert forall|i: int| 0 <= i < offers.len() && (
    #[trigger] offers[i]).payload.len() > 0 implies is_accounted(
        offers[i],
        after,
        (out + more).len() as int,
    ) by {
        if i < less.len() {
            assert(less[i] == offers[i]);
        }
    }
}

#[verifier::spinoff_prover]
proof fn lemma_next_step(
    stream: Seq<u8>,
    origin: u32,
    offers: Seq<Offer>,
    before: Stream,
    out: Seq<u8>,
)
    requires
        offers.len() > 0,
        all_numbered(offers, origin),
        follows(stream, origin, offers.drop_last(), before, out),
        before.gap is None,
        !all_empty(offers.drop_last()),
        !all_empty(offers),
        offers.last().payload.len() > 0,
        lies_at(stream, origin, offers.last().seq, offers.last().payload, offers.last().at),
        is_near(out.len() as int, offers.last().at, offers.last().payload.len() as int),
    ensures
        ({
            let (after, more) = before.push(offers.last().seq, offers.last().payload);
            follows(stream, origin, offers, after, out + more)
        }),
{
    let o = offers.last();
    let (after, more) = before.push(o.seq, o.payload);
    let pos = out.len() as int;
    lemma_push_wf(before, o.seq, o.payload);
    law_push_continues_the_stream(before, stream, origin, pos, o.seq, o.payload, o.at);
    assert(stream.take(pos) + stream.subrange(pos, pos + more.len()) =~= stream.take(
        pos + more.len(),
    ));
    lemma_accounted_step(before, stream, origin, pos, offers);
}

#[verifier::spinoff_prover]
proof fn lemma_pushes(stream: Seq<u8>, origin: u32, offers: Seq<Offer>)
    requires
        all_from(stream, origin, offers),
    ensures
        ({
            let (m, out) = pushed(Stream::unstarted(), offers);
            follows(stream, origin, offers, m, out)
        }),
    decreases offers.len(),
{
    if offers.len() == 0 {
        lemma_unstarted_wf();
        assert(stream.take(0) =~= Seq::<u8>::empty());
    } else {
        let less = offers.drop_last();
        let o = offers.last();
        lemma_all_from_less(stream, origin, offers);
        lemma_pushes(stream, origin, less);
        let (before, out) = pushed(Stream::unstarted(), less);
        assert(o == offers[offers.len() - 1]);
        if o.payload.len() == 0 || before.gap is Some {
            lemma_idle_step(stream, origin, offers, before, out);
        } else if all_empty(less) {
            lemma_first_step(stream, origin, offers, before, out);
        } else {
            assert(all_numbered(offers, origin)) by {
                assert forall|i: int| 0 <= i < offers.len() && (
                #[trigger] offers[i]).payload.len() > 0 implies offers[i].seq == seq_after(
                    origin,
                    offers[i].at,
                ) by {
                    assert(lies_at(stream, origin, offers[i].seq, offers[i].payload, offers[i].at));
                }
            }
            lemma_next_step(stream, origin, offers, before, out);
        }
    }
}

/// The first segment of a direction is taken as the stream's origin: all of it is handed on, and
/// the direction goes on behind it.
pub proof fn law_first_segment_is_the_origin(stream: Seq<u8>, seq: u32, payload: Seq<u8>)
    requires
        payload.len() > 0,
        lies_at(stream, seq, seq, payload, 0),
        is_near(0, 0, payload.len() as int),
    ensures
        Stream::unstarted().push(seq, payload).1 == payload,
        tracks(
            Stream::unstarted().push(seq, payload).0,
            stream,
            seq,
            payload.len() as int,
        ),
{
    let m = Stream::unstarted();
    reveal(held_total);
    lemma_push_wf(m, seq, payload);
    lemma_distance(seq, payload.len() as int, 0);
    assert(seq_after(seq, 0) == seq);
    assert(payload.skip(0) =~= payload);
    lemma_release_stop(m.held, seq, seq_after(seq, payload.len() as int));
    assert(payload + Seq::<u8>::empty() =~= payload);
}

/// A broken direction stays broken: whatever is offered, it hands on nothing and does not change.
pub proof fn law_a_broken_direction_stays_broken(m: Stream, seq: u32, payload: Seq<u8>)
    requires
        m.gap is Some,
    ensures
        m.push(seq, payload) == (m, Seq::<u8>::empty()),
{
}

/// Which of two sequence numbers comes first: one comes before all the numbers up to half the
/// space ahead of it, across the wrap or not, and neither before itself nor before those behind it.
pub proof fn law_a_number_precedes_those_ahead(a: u32, ahead: int)
    requires
        0 <= ahead < 0x1_0000_0000,
    ensures
        ({
            let b = ((a + ahead) % 0x1_0000_0000) as u32;
            &&& precedes(a, b) <==> 0 < ahead <= 0x8000_0000
            &&& 0 < ahead < 0x8000_0000 ==> !precedes(b, a)
        }),
        !precedes(a, a),
{
}

/// A segment that carries nothing leaves no mark: no origin is taken from it and nothing is handed
/// on.
pub proof fn law_an_empty_segment_leaves_no_mark(m: Stream, seq: u32)
    ensures
        m.push(seq, Seq::empty()) == (m, Seq::<u8>::empty()),
{
}

/// How much may wait beyond a hole: 1048576 bytes. A segment that lies ahead is kept as long as
/// what waits stays within that, counting the longer of two runs at one sequence number once; one
/// that would exceed it breaks the direction, at the byte that is missing. Nothing else breaks a
/// direction, and no byte is handed on by a segment that does.
pub proof fn law_a_hole_breaks_a_direction_beyond_one_mebibyte(
    m: Stream,
    next: u32,
    ahead: int,
    payload: Seq<u8>,
)
    requires
        m.wf(),
        m.gap is None,
        m.next == Some(next),
        0 < ahead,
        ahead + payload.len() < 0x8000_0000,
        payload.len() > 0,
    ensures
        ({
            let seq = ((next + ahead) % 0x1_0000_0000) as u32;
            let (after, out) = m.push(seq, payload);
            let waits = if m.held.contains_key(seq) {
                m.held[seq].len()
            } else {
                0
            };
            &&& out == Seq::<u8>::empty()
            &&& payload.len() <= waits ==> after == m
            &&& payload.len() > waits && m.held_bytes - waits + payload.len() <= 1048576
                ==> after.gap is None && after.held == m.held.insert(seq, payload)
                && after.held_bytes == m.held_bytes - waits + payload.len() && after.next == m.next
            &&& payload.len() > waits && m.held_bytes - waits + payload.len() > 1048576
                ==> after.gap == Some(Gap::Missing { at: next })
        }),
{
    lemma_distance(next, ahead, 0);
    lemma_distance(next, ahead + payload.len(), 0);
    lemma_after_after(next, ahead, payload.len() as int);
    assert(seq_after(next, 0) == next);
}

/// A segment that starts at or before what was handed on never breaks a direction.
pub proof fn law_what_continues_the_stream_breaks_nothing(
    m: Stream,
    next: u32,
    behind: int,
    payload: Seq<u8>,
)
    requires
        m.wf(),
        m.gap is None,
        m.next == Some(next),
        0 <= behind < 0x8000_0000,
        payload.len() < 0x8000_0000,
    ensures
        m.push(((next - behind) % 0x1_0000_0000) as u32, payload).0.gap is None,
{
    lemma_distance(next, -behind, 0);
    lemma_distance(next, payload.len() - behind, 0);
    lemma_after_after(next, -behind, payload.len() as int);
    assert(seq_after(next, 0) == next);
}

}
