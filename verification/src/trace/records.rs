//! TLS records out of a plaintext byte stream: the layer an on-path observer actually sees.
//!
//! The record header is not encrypted: one byte of content type, two of legacy version, two of
//! length. That is enough to recover, without any key, the sequence of record sizes and the moment
//! each one completed.
//!
//! Under TLS 1.3 the content type on the wire is always `application_data` (23) once the handshake
//! is past, because the real type is inside the encrypted body. So the type tells where the
//! handshake ends and nothing after that; the length and the clock carry the information.

use vstd::prelude::*;

verus! {

/// TLS content types as they appear on the wire.
pub const CT_CHANGE_CIPHER_SPEC: u8 = 20;

pub const CT_ALERT: u8 = 21;

pub const CT_HANDSHAKE: u8 = 22;

pub const CT_APPLICATION_DATA: u8 = 23;

/// The largest a TLS record may claim to be (RFC 8446, section 5.1: 2^14 plus AEAD expansion).
pub const MAX_RECORD_LEN: usize = 16640;

/// Bytes of a record header.
pub const HEADER_LEN: usize = 5;

/// Which way a record travelled.
#[derive(Debug, Clone, Copy, PartialEq, Eq, Structural)]
pub enum Direction {
    /// Client to server.
    Up,
    /// Server to client.
    Down,
}

/// One record as an observer would tally it. The clock is the caller's.
#[derive(Debug, Clone, Copy, PartialEq)]
pub struct Record<T> {
    /// Capture time of the packet that completed the record.
    pub t: T,
    pub dir: Direction,
    /// Bytes on the wire, header included: that is what costs and what is counted.
    pub len: usize,
    /// Wire content type. Always 23 after the handshake under TLS 1.3.
    pub ct: u8,
}

impl<T> Record<T> {
    /// Whether this record carries application data rather than handshake bookkeeping.
    pub fn is_application(&self) -> (r: bool)
        ensures
            r == (self.ct == CT_APPLICATION_DATA),
    {
        self.ct == CT_APPLICATION_DATA
    }
}

/// The body length that a header claims.
pub open spec fn claimed_len(wire: Seq<u8>) -> int {
    wire[3] * 256 + wire[4]
}

/// Whether the bytes at the front can be a record header.
pub open spec fn plausible(wire: Seq<u8>) -> bool {
    CT_CHANGE_CIPHER_SPEC <= wire[0] <= CT_APPLICATION_DATA && claimed_len(wire) <= MAX_RECORD_LEN
}

/// What a stretch of wire holds: the records that are complete (content type and length on the
/// wire), the bytes behind them, and whether those bytes cannot be the start of a record.
#[verifier::ext_equal]
pub struct Framing {
    pub records: Seq<(u8, int)>,
    pub rest: Seq<u8>,
    pub desynced: bool,
}

/// Reads a stretch of wire, record by record.
pub open spec fn framing(wire: Seq<u8>) -> Framing
    decreases wire.len(),
{
    if wire.len() < HEADER_LEN {
        Framing { records: Seq::empty(), rest: wire, desynced: false }
    } else if !plausible(wire) {
        Framing { records: Seq::empty(), rest: wire, desynced: true }
    } else {
        let total = HEADER_LEN + claimed_len(wire);
        if wire.len() < total {
            Framing { records: Seq::empty(), rest: wire, desynced: false }
        } else {
            let behind = framing(wire.skip(total));
            Framing { records: seq![(wire[0], total)] + behind.records, ..behind }
        }
    }
}

/// A framed record, stamped with the time and the direction it was seen in.
pub open spec fn stamp<T>(records: Seq<(u8, int)>, t: T, dir: Direction) -> Seq<Record<T>> {
    records.map_values(|r: (u8, int)| Record { t, dir, len: r.1 as usize, ct: r.0 })
}

/// Walks one direction's byte stream, emitting records as they complete.
#[derive(Debug)]
pub struct RecordFramer {
    buf: Vec<u8>,
    desynced: bool,
}

impl RecordFramer {
    /// The bytes that no emitted record has used up.
    pub closed spec fn buffered(&self) -> Seq<u8> {
        self.buf@
    }

    /// Whether framing has given up.
    pub closed spec fn gave_up(&self) -> bool {
        self.desynced
    }

    /// Feeds contiguous bytes that became available at `timestamp`.
    ///
    /// A record is reported at the timestamp of the segment that completed it, not the one that
    /// started it: a record split across two packets is only observable once its last byte lands.
    ///
    /// A header that cannot be a TLS record means the stream is not what it is taken for: a missed
    /// gap, a proxy, the wrong port. Framing then stops rather than emit invented lengths.
    pub fn push<T: Copy>(
        &mut self,
        bytes: &[u8],
        timestamp: T,
        dir: Direction,
        out: &mut Vec<Record<T>>,
    )
        ensures
            old(self).gave_up() ==> *final(self) == *old(self) && final(out)@ == old(out)@,
            !old(self).gave_up() ==> {
                let seen = framing(old(self).buffered() + bytes@);
                &&& final(self).buffered() == seen.rest
                &&& final(self).gave_up() == seen.desynced
                &&& final(out)@ == old(out)@ + stamp(seen.records, timestamp, dir)
            },
    {
        if self.desynced {
            return;
        }
        self.buf.extend_from_slice(bytes);
        let ghost wire = self.buf@;
        assert(wire =~= old(self).buf@ + bytes@);
        let ghost goal = framing(wire);
        let mut at: usize = 0;
        assert(wire.skip(0) =~= wire);
        loop
            invariant_except_break
                self.buf@ == wire,
                !self.desynced,
                at <= wire.len(),
                framing(wire.skip(at as int)).rest == goal.rest,
                framing(wire.skip(at as int)).desynced == goal.desynced,
                out@ + stamp(framing(wire.skip(at as int)).records, timestamp, dir) == old(out)@
                    + stamp(goal.records, timestamp, dir),
            ensures
                at <= wire.len(),
                self.buf@ == wire,
                goal.rest == wire.skip(at as int),
                self.desynced == goal.desynced,
                out@ == old(out)@ + stamp(goal.records, timestamp, dir),
            decreases wire.len() - at,
        {
            let ghost here = wire.skip(at as int);
            let ghost none = stamp(Seq::<(u8, int)>::empty(), timestamp, dir);
            assert(out@ + none =~= out@);
            if self.buf.len() - at < HEADER_LEN {
                break ;
            }
            let ct: u8 = self.buf[at];
            let len: usize = self.buf[at + 3] as usize * 256 + self.buf[at + 4] as usize;
            assert(here[0] == ct && claimed_len(here) == len);
            if ct < CT_CHANGE_CIPHER_SPEC || ct > CT_APPLICATION_DATA || len > MAX_RECORD_LEN {
                self.desynced = true;
                break ;
            }
            let total: usize = HEADER_LEN + len;
            if self.buf.len() - at < total {
                break ;  // record still in flight
            }
            let ghost before = out@;
            let ghost behind = framing(here.skip(total as int)).records;
            out.push(Record { t: timestamp, dir, len: total, ct });
            at = at + total;
            proof {
                assert(here.skip(total as int) =~= wire.skip(at as int));
                assert(before + stamp(seq![(ct, total as int)] + behind, timestamp, dir) =~= out@
                    + stamp(behind, timestamp, dir));
            }
        }
        let rest: Vec<u8> = self.buf.split_off(at);
        assert(rest@ =~= goal.rest);
        self.buf = rest;
    }

    /// Whether framing gave up on this direction. A desynced direction must not be summarised.
    pub fn desynced(&self) -> (r: bool)
        ensures
            r == self.gave_up(),
    {
        self.desynced
    }

    /// Bytes held for a record that never completed.
    pub fn pending(&self) -> (r: usize)
        ensures
            r == self.buffered().len(),
    {
        self.buf.len()
    }
}

impl Default for RecordFramer {
    fn default() -> (r: Self)
        ensures
            r.buffered() == Seq::<u8>::empty(),
            !r.gave_up(),
    {
        RecordFramer { buf: Vec::new(), desynced: false }
    }
}

/// How many bytes a list of records took on the wire.
pub open spec fn wire_total(records: Seq<(u8, int)>) -> int
    decreases records.len(),
{
    if records.len() == 0 {
        0
    } else {
        records[0].1 + wire_total(records.skip(1))
    }
}

/// Whether `wire` is exactly one record.
pub open spec fn is_record(wire: Seq<u8>) -> bool {
    &&& wire.len() >= HEADER_LEN
    &&& plausible(wire)
    &&& wire.len() == HEADER_LEN + claimed_len(wire)
}

/// Where the packet boundaries fall does not matter: cut a stretch of wire in two, and the records
/// of the first part, then those of what it left over and the second part, are those of the whole.
/// Once framing has given up, more wire gives no more records.
pub proof fn law_framing_ignores_packet_boundaries(a: Seq<u8>, b: Seq<u8>)
    ensures
        !framing(a).desynced ==> {
            let behind = framing(framing(a).rest + b);
            framing(a + b) == Framing { records: framing(a).records + behind.records, ..behind }
        },
        framing(a).desynced ==> framing(a + b).desynced && framing(a + b).records == framing(
            a,
        ).records,
    decreases a.len(),
{
    if a.len() < HEADER_LEN {
        assert(Seq::<(u8, int)>::empty() + framing(a + b).records =~= framing(a + b).records);
    } else {
        assert((a + b)[0] == a[0] && (a + b)[3] == a[3] && (a + b)[4] == a[4]);
        let total = HEADER_LEN + claimed_len(a);
        if !plausible(a) {
        } else if a.len() < total {
            assert(Seq::<(u8, int)>::empty() + framing(a + b).records =~= framing(a + b).records);
        } else {
            let rest = a.skip(total);
            assert((a + b).skip(total) =~= rest + b);
            law_framing_ignores_packet_boundaries(rest, b);
            let head = seq![(a[0], total)];
            if !framing(rest).desynced {
                let behind = framing(framing(rest).rest + b);
                assert(head + (framing(rest).records + behind.records) =~= head + framing(
                    rest,
                ).records + behind.records);
            }
        }
    }
}

/// Every byte is accounted for: the lengths of the records and the bytes left over add up to the
/// wire that was read. No record is longer than a TLS record may be, or of an unknown type.
pub proof fn law_framing_accounts_for_every_byte(wire: Seq<u8>)
    ensures
        wire_total(framing(wire).records) + framing(wire).rest.len() == wire.len(),
        forall|i: int|
            #![trigger framing(wire).records[i]]
            0 <= i < framing(wire).records.len() ==> {
                let r = framing(wire).records[i];
                &&& HEADER_LEN <= r.1 <= HEADER_LEN + MAX_RECORD_LEN
                &&& CT_CHANGE_CIPHER_SPEC <= r.0 <= CT_APPLICATION_DATA
            },
    decreases wire.len(),
{
    if wire.len() >= HEADER_LEN && plausible(wire) && wire.len() >= HEADER_LEN + claimed_len(wire) {
        let total = HEADER_LEN + claimed_len(wire);
        let behind = framing(wire.skip(total));
        law_framing_accounts_for_every_byte(wire.skip(total));
        assert((seq![(wire[0], total)] + behind.records).skip(1) =~= behind.records);
        assert forall|i: int|
            #![trigger framing(wire).records[i]]
            0 <= i < framing(wire).records.len() implies {
            let r = framing(wire).records[i];
            &&& HEADER_LEN <= r.1 <= HEADER_LEN + MAX_RECORD_LEN
            &&& CT_CHANGE_CIPHER_SPEC <= r.0 <= CT_APPLICATION_DATA
        } by {
            if i > 0 {
                assert(framing(wire).records[i] == behind.records[i - 1]);
            }
        }
    }
}

/// Records coalesced into one packet stay separate: a record in front of other wire is seen as
/// itself, with its own type and length, and the rest as if it had come alone.
pub proof fn law_coalesced_records_stay_separate(record: Seq<u8>, behind: Seq<u8>)
    requires
        is_record(record),
    ensures
        framing(record + behind).records == seq![(record[0], record.len() as int)] + framing(
            behind,
        ).records,
        framing(record + behind).rest == framing(behind).rest,
        framing(record + behind).desynced == framing(behind).desynced,
{
    let wire = record + behind;
    assert(wire[0] == record[0] && wire[3] == record[3] && wire[4] == record[4]);
    assert(wire.skip(record.len() as int) =~= behind);
}

/// What is left over holds no complete record: where framing has not given up, it is shorter than
/// the longest record.
pub proof fn law_no_record_stays_behind(wire: Seq<u8>)
    ensures
        !framing(wire).desynced ==> framing(wire).rest.len() < HEADER_LEN + MAX_RECORD_LEN,
        !framing(wire).desynced ==> framing(framing(wire).rest).records.len() == 0,
    decreases wire.len(),
{
    if wire.len() >= HEADER_LEN && plausible(wire) && wire.len() >= HEADER_LEN + claimed_len(wire) {
        law_no_record_stays_behind(wire.skip(HEADER_LEN + claimed_len(wire)));
    }
}

/// One push: the bytes, and the time and the direction they are seen in.
pub struct Chunk<T> {
    pub bytes: Seq<u8>,
    pub t: T,
    pub dir: Direction,
}

/// A framer, and all the records it has emitted.
pub struct Framed<T> {
    pub buffered: Seq<u8>,
    pub gave_up: bool,
    pub out: Seq<Record<T>>,
}

/// What a fresh framer holds and has emitted after some pushes, one after the other.
pub open spec fn framed_all<T>(chunks: Seq<Chunk<T>>) -> Framed<T>
    decreases chunks.len(),
{
    if chunks.len() == 0 {
        Framed { buffered: Seq::empty(), gave_up: false, out: Seq::empty() }
    } else {
        let before = framed_all(chunks.drop_last());
        let last = chunks.last();
        if before.gave_up {
            before
        } else {
            let seen = framing(before.buffered + last.bytes);
            Framed {
                buffered: seen.rest,
                gave_up: seen.desynced,
                out: before.out + stamp(seen.records, last.t, last.dir),
            }
        }
    }
}

/// The bytes of some pushes, put together.
pub open spec fn wire_of<T>(chunks: Seq<Chunk<T>>) -> Seq<u8>
    decreases chunks.len(),
{
    if chunks.len() == 0 {
        Seq::empty()
    } else {
        wire_of(chunks.drop_last()) + chunks.last().bytes
    }
}

/// How many bytes some records took on the wire.
pub open spec fn total_len<T>(records: Seq<Record<T>>) -> int
    decreases records.len(),
{
    if records.len() == 0 {
        0
    } else {
        total_len(records.drop_last()) + records.last().len
    }
}

/// The types and lengths of some records.
pub open spec fn shapes<T>(records: Seq<Record<T>>) -> Seq<(u8, int)> {
    records.map_values(|r: Record<T>| (r.ct, r.len as int))
}

proof fn lemma_total_add<T>(a: Seq<Record<T>>, b: Seq<Record<T>>)
    ensures
        total_len(a + b) == total_len(a) + total_len(b),
    decreases b.len(),
{
    if b.len() == 0 {
        assert(a + b =~= a);
    } else {
        assert((a + b).drop_last() =~= a + b.drop_last());
        lemma_total_add(a, b.drop_last());
    }
}

proof fn lemma_stamped_total<T>(records: Seq<(u8, int)>, t: T, dir: Direction)
    requires
        forall|i: int| 0 <= i < records.len() ==> 0 <= (#[trigger] records[i]).1 <= u16::MAX,
    ensures
        total_len(stamp(records, t, dir)) == wire_total(records),
        shapes(stamp(records, t, dir)) == records,
    decreases records.len(),
{
    let all = stamp(records, t, dir);
    assert(shapes(all) =~= records);
    if records.len() > 0 {
        let rest = records.skip(1);
        assert forall|i: int| 0 <= i < rest.len() implies 0 <= (#[trigger] rest[i]).1 <= u16::MAX by {
            assert(rest[i] == records[i + 1]);
        }
        lemma_stamped_total(rest, t, dir);
        assert(all =~= seq![all[0]] + stamp(rest, t, dir));
        lemma_total_add(seq![all[0]], stamp(rest, t, dir));
        assert(seq![all[0]].drop_last() =~= Seq::empty());
        assert(total_len(seq![all[0]].drop_last()) == 0);
        assert(total_len(seq![all[0]]) == all[0].len);
    }
}

/// However a stretch of wire is cut into pushes, the records that are emitted are those of the
/// wire as a whole, in order. Where framing has not given up, every byte that was pushed is in a
/// record or still pending, and what is pending holds no complete record.
pub proof fn law_pushes_account_for_every_byte<T>(chunks: Seq<Chunk<T>>)
    ensures
        ({
            let f = framed_all(chunks);
            let whole = framing(wire_of(chunks));
            &&& shapes(f.out) == whole.records
            &&& f.gave_up == whole.desynced
            &&& !f.gave_up ==> {
                &&& f.buffered == whole.rest
                &&& total_len(f.out) + f.buffered.len() == wire_of(chunks).len()
                &&& f.buffered.len() < HEADER_LEN + MAX_RECORD_LEN
                &&& framing(f.buffered).records.len() == 0
            }
        }),
    decreases chunks.len(),
{
    let f = framed_all(chunks);
    let wire = wire_of(chunks);
    law_no_record_stays_behind(wire);
    if chunks.len() == 0 {
        assert(shapes(f.out) =~= framing(wire).records);
    } else {
        let less = chunks.drop_last();
        let last = chunks.last();
        let before = framed_all(less);
        law_pushes_account_for_every_byte(less);
        law_framing_ignores_packet_boundaries(wire_of(less), last.bytes);
        if !before.gave_up {
            let joined = before.buffered + last.bytes;
            let seen = framing(joined);
            law_framing_accounts_for_every_byte(joined);
            assert forall|i: int| 0 <= i < seen.records.len() implies 0 <= (
            #[trigger] seen.records[i]).1 <= u16::MAX by {
                assert(framing(joined).records[i].1 <= HEADER_LEN + MAX_RECORD_LEN);
            }
            let stamped = stamp(seen.records, last.t, last.dir);
            lemma_stamped_total(seen.records, last.t, last.dir);
            lemma_total_add(before.out, stamped);
            assert(shapes(before.out + stamped) =~= shapes(before.out) + shapes(stamped));
        }
    }
}

/// Every kind of record is recognised, whatever its version bytes: five bytes of header, of type
/// change-cipher-spec (20), alert (21), handshake (22) or application data (23), and a body of the
/// length that the last two of them spell, up to 16640 bytes, are one record of that type. It is
/// as long as the header and the body, nothing is left over, and framing goes on.
pub proof fn law_every_kind_of_record_is_framed(
    ct: u8,
    major: u8,
    minor: u8,
    hi: u8,
    lo: u8,
    body: Seq<u8>,
)
    requires
        ct == 20 || ct == 21 || ct == 22 || ct == 23,
        body.len() == hi * 256 + lo,
        body.len() <= 16640,
    ensures
        framing(seq![ct, major, minor, hi, lo] + body).records == seq![(ct, 5 + body.len() as int)],
        framing(seq![ct, major, minor, hi, lo] + body).rest == Seq::<u8>::empty(),
        !framing(seq![ct, major, minor, hi, lo] + body).desynced,
{
    let wire = seq![ct, major, minor, hi, lo] + body;
    assert(wire[0] == ct && wire[3] == hi && wire[4] == lo);
    let behind = wire.skip(wire.len() as int);
    assert(behind =~= Seq::empty());
    assert(framing(behind).records =~= Seq::empty());
    assert(seq![(ct, 5 + body.len() as int)] + framing(behind).records =~= seq![
        (ct, 5 + body.len() as int),
    ]);
}

/// Five bytes decide. Fewer say nothing yet. A first byte outside 20 to 23, or a length beyond
/// 16640, is no record: framing gives up there, keeps the wire as it is and emits nothing for it.
/// Any other header is one: until its body is whole nothing is emitted, and once it is, the record
/// comes first, and behind it whatever the rest of the wire holds.
pub proof fn law_five_bytes_decide(wire: Seq<u8>)
    ensures
        wire.len() < 5 ==> framing(wire).records.len() == 0 && framing(wire).rest == wire
            && !framing(wire).desynced,
        wire.len() >= 5 && (wire[0] < 20 || wire[0] > 23 || wire[3] * 256 + wire[4] > 16640)
            ==> framing(wire).records.len() == 0 && framing(wire).rest == wire && framing(
            wire,
        ).desynced,
        wire.len() >= 5 && 20 <= wire[0] <= 23 && wire[3] * 256 + wire[4] <= 16640 ==> {
            let total = 5 + wire[3] * 256 + wire[4];
            if wire.len() < total {
                &&& framing(wire).records.len() == 0
                &&& framing(wire).rest == wire
                &&& !framing(wire).desynced
            } else {
                let behind = framing(wire.skip(total));
                &&& framing(wire).records == seq![(wire[0], total)] + behind.records
                &&& framing(wire).rest == behind.rest
                &&& framing(wire).desynced == behind.desynced
            }
        },
{
}

/// A record is reported with the time and the direction of the push that completed it, with its
/// own length and type, and in the order of the wire.
pub proof fn law_records_are_stamped<T>(records: Seq<(u8, int)>, t: T, dir: Direction, i: int)
    requires
        0 <= i < records.len(),
        0 <= records[i].1 <= usize::MAX,
    ensures
        stamp(records, t, dir).len() == records.len(),
        stamp(records, t, dir)[i].t == t,
        stamp(records, t, dir)[i].dir == dir,
        stamp(records, t, dir)[i].len == records[i].1,
        stamp(records, t, dir)[i].ct == records[i].0,
{
}

}
