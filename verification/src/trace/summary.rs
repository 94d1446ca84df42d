//! From the records of a trace to what is said about it.

use crate::trace::capture::TracedRecord;
use crate::trace::ratio::Ratio;
use crate::trace::records::{Direction, Record};
use crate::trace::sorting::{sort_stably, Keyed};
use crate::trace::stats::{application_records, quantile, record_gaps, sort_times, sum_sizes};
use crate::trace::stats::{ConnectionFeatures, MICROS};
use vstd::prelude::*;

verus! {

/// Records are sorted by their time.
impl Keyed for Record<i64> {
    open spec fn key(&self) -> int {
        self.t as int
    }

    fn not_after(&self, other: &Self) -> (r: bool) {
        self.t <= other.t
    }
}

/// Traced records are sorted by their connection.
impl Keyed for TracedRecord<i64> {
    open spec fn key(&self) -> int {
        self.conn as int
    }

    fn not_after(&self, other: &Self) -> (r: bool) {
        self.conn <= other.conn
    }
}

/// The records of one connection, in the order of the trace.
pub open spec fn of_connection(traced: Seq<TracedRecord<i64>>, conn: u32) -> Seq<Record<i64>> {
    crate::trace::sorting::of_key(traced, conn as int).map_values(|t: TracedRecord<i64>| t.record)
}

/// Whether a connection occurs in a trace.
pub open spec fn traces(traced: Seq<TracedRecord<i64>>, conn: u32) -> bool {
    exists|k: int| 0 <= k < traced.len() && (#[trigger] traced[k]).conn == conn
}

/// Whether a connection has a group.
pub open spec fn has_group(groups: Seq<(u32, Vec<Record<i64>>)>, conn: u32) -> bool {
    exists|i: int| 0 <= i < groups.len() && (#[trigger] groups[i]).0 == conn
}

/// Whether `groups` are the connections of a trace, each once and by ascending number, and each
/// with its records by ascending time, those of one time in the order of the trace.
pub open spec fn groups_trace(
    traced: Seq<TracedRecord<i64>>,
    groups: Seq<(u32, Vec<Record<i64>>)>,
) -> bool {
    &&& forall|i: int, j: int|
        0 <= i < j < groups.len() ==> (#[trigger] groups[i]).0 < (#[trigger] groups[j]).0
    &&& forall|conn: u32| #[trigger] has_group(groups, conn) <==> traces(traced, conn)
    &&& forall|i: int|
        0 <= i < groups.len() ==> crate::trace::sorting::sorts(
            of_connection(traced, (#[trigger] groups[i]).0),
            groups[i].1@,
        )
}

/// Takes the run of records of one connection that starts at `start`. Returns it and where it
/// ends.
fn take_run(sorted: &[TracedRecord<i64>], start: usize) -> (r: (Vec<Record<i64>>, usize))
    requires
        crate::trace::sorting::ascends(sorted@),
        start < sorted@.len(),
        start > 0 ==> sorted@[start - 1].conn < sorted@[start as int].conn,
    ensures
        r.0@ == of_connection(sorted@, sorted@[start as int].conn),
        start < r.1 <= sorted@.len(),
        forall|k: int| start <= k < r.1 ==> (#[trigger] sorted@[k]).conn == sorted@[start as int].conn,
        r.1 < sorted@.len() ==> sorted@[r.1 - 1].conn < sorted@[r.1 as int].conn,
{
    let conn: u32 = sorted[start].conn;
    let mut run: Vec<Record<i64>> = Vec::new();
    let mut i: usize = start;
    proof {
        assert forall|k: int| 0 <= k < start implies #[trigger] sorted@.take(start as int)[k].key()
            != conn as int by {
            assert(sorted@[k].key() <= sorted@[start - 1].key());
        }
        crate::trace::sorting::lemma_of_key_none(sorted@.take(start as int), conn as int);
    }
    while i < sorted.len() && sorted[i].conn == conn
        invariant
            start <= i <= sorted@.len(),
            forall|k: int| start <= k < i ==> (#[trigger] sorted@[k]).conn == conn,
            run@ =~= of_connection(sorted@.take(i as int), conn),
        decreases sorted@.len() - i,
    {
        proof {
            let here = sorted@[i as int];
            assert(sorted@.take(i + 1) =~= sorted@.take(i as int).push(here));
            crate::trace::sorting::lemma_of_key_push(sorted@.take(i as int), here, conn as int);
        }
        run.push(sorted[i].record);
        i = i + 1;
    }
    proof {
        let rest = sorted@.skip(i as int);
        if i < sorted@.len() {
            assert(sorted@[start as int].key() <= sorted@[i as int].key());
        }
        assert forall|k: int| 0 <= k < rest.len() implies #[trigger] rest[k].key() != conn as int by {
            assert(sorted@[i as int].key() <= sorted@[i + k].key());
        }
        crate::trace::sorting::lemma_of_key_none(rest, conn as int);
        crate::trace::sorting::lemma_of_key_add(sorted@.take(i as int), rest, conn as int);
        assert(sorted@.take(i as int) + rest =~= sorted@);
        assert(run@ =~= of_connection(sorted@, conn));
    }
    (run, i)
}

/// Groups a trace by connection, in the order of the connections' numbers; within a connection the
/// records are in the order of their times.
pub fn by_connection(traced: &[TracedRecord<i64>]) -> (r: Vec<(u32, Vec<Record<i64>>)>)
    ensures
        groups_trace(traced@, r@),
{
    let sorted: Vec<TracedRecord<i64>> = sort_stably(traced);
    let mut groups: Vec<(u32, Vec<Record<i64>>)> = Vec::new();
    let mut i: usize = 0;
    while i < sorted.len()
        invariant
            i <= sorted@.len(),
            crate::trace::sorting::ascends(sorted@),
            0 < i < sorted@.len() ==> sorted@[i - 1].conn < sorted@[i as int].conn,
            forall|a: int, b: int|
                0 <= a < b < groups@.len() ==> (#[trigger] groups@[a]).0 < (#[trigger] groups@[b]).0,
            forall|a: int| #![trigger groups@[a]]
                0 <= a < groups@.len() ==> i > 0 && groups@[a].0 <= sorted@[i - 1].conn,
            forall|conn: u32| #[trigger]
                has_group(groups@, conn) <==> traces(sorted@.take(i as int), conn),
            forall|a: int|
                0 <= a < groups@.len() ==> crate::trace::sorting::sorts(
                    of_connection(sorted@, (#[trigger] groups@[a]).0),
                    groups@[a].1@,
                ),
        decreases sorted@.len() - i,
    {
        let ghost start = i as int;
        let ghost before = groups@;
        let conn: u32 = sorted[i].conn;
        let (run, end): (Vec<Record<i64>>, usize) = take_run(sorted.as_slice(), i);
        groups.push((conn, sort_stably(run.as_slice())));
        i = end;
        proof {
            lemma_groups_grow(before, groups@.last(), sorted@, start, end as int);
            assert(groups@ =~= before.push(groups@.last()));
            if start > 0 {
                assert(sorted@[start - 1].conn < conn);
            }
        }
    }
    proof {
        assert(sorted@.take(i as int) =~= sorted@);
        lemma_same_items(traced@, sorted@);
        assert forall|conn: u32| #[trigger] traces(traced@, conn) <==> traces(sorted@, conn) by {
            if traces(traced@, conn) {
                lemma_traces(traced@, sorted@, conn);
            }
            if traces(sorted@, conn) {
                lemma_traces(sorted@, traced@, conn);
            }
        }
        assert forall|a: int| 0 <= a < groups@.len() implies crate::trace::sorting::sorts(
            of_connection(traced@, (#[trigger] groups@[a]).0),
            groups@[a].1@,
        ) by {
            let c = groups@[a].0 as int;
            assert(crate::trace::sorting::of_key(sorted@, c) == crate::trace::sorting::of_key(
                traced@,
                c,
            ));
        }
    }
    groups
}

proof fn lemma_groups_grow(
    before: Seq<(u32, Vec<Record<i64>>)>,
    group: (u32, Vec<Record<i64>>),
    sorted: Seq<TracedRecord<i64>>,
    start: int,
    end: int,
)
    requires
        0 <= start < end <= sorted.len(),
        forall|conn: u32| #[trigger] has_group(before, conn) <==> traces(sorted.take(start), conn),
        forall|k: int| start <= k < end ==> (#[trigger] sorted[k]).conn == group.0,
    ensures
        forall|conn: u32| #[trigger]
            has_group(before.push(group), conn) <==> traces(sorted.take(end), conn),
{
    let after = before.push(group);
    assert forall|conn: u32| #[trigger] has_group(after, conn) <==> traces(sorted.take(end), conn) by {
        if has_group(after, conn) {
            let a = choose|a: int| 0 <= a < after.len() && (#[trigger] after[a]).0 == conn;
            if a < before.len() {
                assert(before[a].0 == conn);
                assert(has_group(before, conn));
                let k = choose|k: int|
                    0 <= k < start && (#[trigger] sorted.take(start)[k]).conn == conn;
                assert(sorted.take(end)[k].conn == conn);
            } else {
                assert(sorted.take(end)[start] == sorted[start]);
            }
        }
        if traces(sorted.take(end), conn) {
            let k = choose|k: int| 0 <= k < end && (#[trigger] sorted.take(end)[k]).conn == conn;
            if k < start {
                assert(sorted.take(start)[k].conn == conn);
                assert(has_group(before, conn));
                let a = choose|a: int| 0 <= a < before.len() && (#[trigger] before[a]).0 == conn;
                assert(after[a].0 == conn);
            } else {
                assert(sorted[k].conn == group.0);
                assert(after[before.len() as int].0 == conn);
            }
        }
    }
}

proof fn lemma_traces(a: Seq<TracedRecord<i64>>, b: Seq<TracedRecord<i64>>, conn: u32)
    requires
        forall|x: TracedRecord<i64>| #[trigger] a.contains(x) ==> b.contains(x),
        traces(a, conn),
    ensures
        traces(b, conn),
{
    let k = choose|k: int| 0 <= k < a.len() && (#[trigger] a[k]).conn == conn;
    assert(a.contains(a[k]));
    let n = choose|n: int| 0 <= n < b.len() && b[n] == a[k];
    assert(b[n].conn == conn);
}

/// Reordering neither adds nor drops an item.
proof fn lemma_same_items<T>(a: Seq<T>, b: Seq<T>)
    requires
        a.to_multiset() == b.to_multiset(),
    ensures
        forall|x: T| #[trigger] a.contains(x) <==> b.contains(x),
        forall|x: T| a.contains(x) <==> #[trigger] b.contains(x),
{
    broadcast use vstd::seq_lib::group_to_multiset_ensures;

    assert forall|x: T| #[trigger] a.contains(x) <==> b.contains(x) by {
        assert(a.contains(x) <==> a.to_multiset().count(x) > 0);
        assert(b.contains(x) <==> b.to_multiset().count(x) > 0);
    }
}

/// Whether the figures of every connection can be held: the sum of its sizes, and the time between
/// any two of its records.
pub open spec fn all_measurable(groups: Seq<(u32, Vec<Record<i64>>)>) -> bool {
    forall|i: int|
        0 <= i < groups.len() ==> measurable((#[trigger] groups[i]).1@)
}

/// Whether the figures of one connection can be held.
pub open spec fn measurable(records: Seq<Record<i64>>) -> bool {
    let app = crate::trace::stats::application(records);
    crate::trace::stats::sum_of(crate::trace::stats::sizes_of(app)) <= usize::MAX
        && crate::trace::stats::spanned(app)
}

/// The application-data records of the connections that have enough of them to be described.
pub open spec fn describable(groups: Seq<(u32, Vec<Record<i64>>)>) -> Seq<Seq<Record<i64>>> {
    groups.map_values(
        |g: (u32, Vec<Record<i64>>)| crate::trace::stats::application(g.1@),
    ).filter(|app: Seq<Record<i64>>| app.len() >= 2)
}

/// Derives the features of every connection that has any.
pub fn features(groups: &[(u32, Vec<Record<i64>>)]) -> (r: Vec<ConnectionFeatures>)
    requires
        all_measurable(groups@),
    ensures
        r@.len() == describable(groups@).len(),
        forall|i: int|
            0 <= i < r@.len() ==> (#[trigger] r@[i]).wf() && r@[i].describes(describable(groups@)[i]),
{
    let mut out: Vec<ConnectionFeatures> = Vec::new();
    let mut i: usize = 0;
    proof {
        reveal(Seq::filter);
        assert(describable(groups@.take(0)) =~= Seq::empty());
    }
    while i < groups.len()
        invariant
            i <= groups@.len(),
            all_measurable(groups@),
            out@.len() == describable(groups@.take(i as int)).len(),
            forall|k: int|
                0 <= k < out@.len() ==> (#[trigger] out@[k]).wf() && out@[k].describes(
                    describable(groups@.take(i as int))[k],
                ),
        decreases groups@.len() - i,
    {
        proof {
            lemma_describable_next(groups@, i as int);
            assert(measurable(groups@[i as int].1@));
        }
        match ConnectionFeatures::from_records(groups[i].1.as_slice()) {
            Some(f) => {
                out.push(f);
            },
            None => {},
        }
        i = i + 1;
    }
    assert(groups@.take(i as int) =~= groups@);
    out
}

proof fn lemma_describable_next(groups: Seq<(u32, Vec<Record<i64>>)>, i: int)
    requires
        0 <= i < groups.len(),
    ensures
        ({
            let app = crate::trace::stats::application(groups[i].1@);
            describable(groups.take(i + 1)) == if app.len() >= 2 {
                describable(groups.take(i)).push(app)
            } else {
                describable(groups.take(i))
            }
        }),
{
    reveal(Seq::filter);
    let apps = |g: (u32, Vec<Record<i64>>)| crate::trace::stats::application(g.1@);
    assert(groups.take(i + 1).map_values(apps).drop_last() =~= groups.take(i).map_values(apps));
}

/// One record size and how often it occurs.
#[derive(Debug, Clone, Copy, PartialEq)]
pub struct SizeCount {
    pub size: usize,
    pub count: usize,
}

/// The most frequent size first; of equally frequent ones the smaller first.
impl Keyed for SizeCount {
    open spec fn key(&self) -> int {
        self.size - self.count * 0x1_0000_0000_0000_0000
    }

    fn not_after(&self, other: &Self) -> (r: bool) {
        self.count > other.count || (self.count == other.count && self.size <= other.size)
    }
}

/// How often a size occurs.
pub open spec fn occurrences(sizes: Seq<usize>, size: usize) -> nat {
    crate::trace::sorting::of_key(sizes, size as int).len()
}

/// Whether `counts` says of every size that occurs how often it does, in the order of the report:
/// by falling count, equal counts by rising size.
pub open spec fn tallies(sizes: Seq<usize>, counts: Seq<SizeCount>) -> bool {
    &&& forall|i: int|
        0 <= i < counts.len() ==> (#[trigger] counts[i]).count > 0 && counts[i].count == occurrences(
            sizes,
            counts[i].size,
        )
    &&& forall|size: usize|
        sizes.contains(size) ==> exists|i: int|
            0 <= i < counts.len() && (#[trigger] counts[i]).size == size
    &&& forall|i: int, j: int|
        0 <= i < j < counts.len() ==> (#[trigger] counts[i]).count > (#[trigger] counts[j]).count
            || (counts[i].count == counts[j].count && counts[i].size < counts[j].size)
}

/// Counts every size of a sorted list, by rising size.
fn count_runs(sorted: &[usize]) -> (r: Vec<SizeCount>)
    requires
        crate::trace::sorting::ascends(sorted@),
    ensures
        forall|i: int|
            0 <= i < r@.len() ==> (#[trigger] r@[i]).count > 0 && r@[i].count == occurrences(
                sorted@,
                r@[i].size,
            ),
        forall|size: usize|
            sorted@.contains(size) ==> exists|i: int|
                0 <= i < r@.len() && (#[trigger] r@[i]).size == size,
        forall|i: int, j: int| 0 <= i < j < r@.len() ==> (#[trigger] r@[i]).size < (#[trigger] r@[j]).size,
{
    let mut out: Vec<SizeCount> = Vec::new();
    let mut i: usize = 0;
    while i < sorted.len()
        invariant
            i <= sorted@.len(),
            crate::trace::sorting::ascends(sorted@),
            0 < i < sorted@.len() ==> sorted@[i - 1] < sorted@[i as int],
            forall|a: int|
                0 <= a < out@.len() ==> (#[trigger] out@[a]).count > 0 && out@[a].count
                    == occurrences(sorted@, out@[a].size),
            forall|a: int| #![trigger out@[a]]
                0 <= a < out@.len() ==> i > 0 && out@[a].size <= sorted@[i - 1],
            forall|k: int|
                0 <= k < i ==> exists|a: int|
                    0 <= a < out@.len() && (#[trigger] out@[a]).size == #[trigger] sorted@[k],
            forall|a: int, b: int|
                0 <= a < b < out@.len() ==> (#[trigger] out@[a]).size < (#[trigger] out@[b]).size,
        decreases sorted@.len() - i,
    {
        let ghost start = i as int;
        let ghost before = out@;
        let size: usize = sorted[i];
        let end: usize = end_of_run(sorted, i);
        out.push(SizeCount { size, count: end - i });
        i = end;
        proof {
            assert forall|k: int| 0 <= k < i implies exists|a: int|
                0 <= a < out@.len() && (#[trigger] out@[a]).size == #[trigger] sorted@[k] by {
                if k < start {
                    let a = choose|a: int|
                        0 <= a < before.len() && (#[trigger] before[a]).size == sorted@[k];
                    assert(out@[a].size == sorted@[k]);
                } else {
                    assert(out@[before.len() as int].size == sorted@[k]);
                }
            }
            if start > 0 {
                assert(sorted@[start - 1] < size);
            }
        }
    }
    proof {
        assert forall|size: usize| sorted@.contains(size) implies exists|a: int|
            0 <= a < out@.len() && (#[trigger] out@[a]).size == size by {
            let k = choose|k: int| 0 <= k < sorted@.len() && sorted@[k] == size;
            assert(sorted@[k] == size);
        }
    }
    out
}

/// Where the run of equal sizes that starts at `start` ends.
fn end_of_run(sorted: &[usize], start: usize) -> (r: usize)
    requires
        crate::trace::sorting::ascends(sorted@),
        start < sorted@.len(),
        start > 0 ==> sorted@[start - 1] < sorted@[start as int],
    ensures
        start < r <= sorted@.len(),
        r - start == occurrences(sorted@, sorted@[start as int]),
        forall|k: int| start <= k < r ==> #[trigger] sorted@[k] == sorted@[start as int],
        r < sorted@.len() ==> sorted@[r - 1] < sorted@[r as int],
{
    let size: usize = sorted[start];
    let mut i: usize = start;
    proof {
        assert forall|k: int| 0 <= k < start implies #[trigger] sorted@.take(start as int)[k].key()
            != size as int by {
            assert(sorted@[k].key() <= sorted@[start - 1].key());
        }
        crate::trace::sorting::lemma_of_key_none(sorted@.take(start as int), size as int);
    }
    while i < sorted.len() && sorted[i] == size
        invariant
            start <= i <= sorted@.len(),
            forall|k: int| start <= k < i ==> #[trigger] sorted@[k] == size,
            i - start == occurrences(sorted@.take(i as int), size),
        decreases sorted@.len() - i,
    {
        proof {
            assert(sorted@.take(i + 1) =~= sorted@.take(i as int).push(size));
            crate::trace::sorting::lemma_of_key_push(sorted@.take(i as int), size, size as int);
        }
        i = i + 1;
    }
    proof {
        let rest = sorted@.skip(i as int);
        if i < sorted@.len() {
            assert(sorted@[start as int].key() <= sorted@[i as int].key());
        }
        assert forall|k: int| 0 <= k < rest.len() implies #[trigger] rest[k].key() != size as int by {
            assert(sorted@[i as int].key() <= sorted@[i + k].key());
        }
        crate::trace::sorting::lemma_of_key_none(rest, size as int);
        crate::trace::sorting::lemma_of_key_add(sorted@.take(i as int), rest, size as int);
        assert(sorted@.take(i as int) + rest =~= sorted@);
    }
    i
}

/// Sizes as counts, not a histogram with invented bins: a bucketed sender has a handful of values
/// and binning them would hide exactly the property being checked.
pub fn tally(sizes: &[usize]) -> (r: Vec<SizeCount>)
    ensures
        tallies(sizes@, r@),
{
    let sorted: Vec<usize> = sort_stably(sizes);
    let runs: Vec<SizeCount> = count_runs(sorted.as_slice());
    let r: Vec<SizeCount> = sort_stably(runs.as_slice());
    proof {
        lemma_same_items(sizes@, sorted@);
        lemma_same_items(runs@, r@);
        assert forall|i: int| 0 <= i < r@.len() implies (#[trigger] r@[i]).count > 0
            && r@[i].count == occurrences(sizes@, r@[i].size) by {
            assert(r@.contains(r@[i]));
            let k = choose|k: int| 0 <= k < runs@.len() && runs@[k] == r@[i];
            let size = r@[i].size as int;
            assert(crate::trace::sorting::of_key(sorted@, size) == crate::trace::sorting::of_key(
                sizes@,
                size,
            ));
        }
        assert forall|size: usize| sizes@.contains(size) implies exists|i: int|
            0 <= i < r@.len() && (#[trigger] r@[i]).size == size by {
            assert(sorted@.contains(size));
            let k = choose|k: int| 0 <= k < runs@.len() && (#[trigger] runs@[k]).size == size;
            assert(runs@.contains(runs@[k]));
            let i = choose|i: int| 0 <= i < r@.len() && r@[i] == runs@[k];
            assert(r@[i].size == size);
        }
        assert(runs@.no_duplicates());
        runs@.lemma_multiset_has_no_duplicates();
        r@.lemma_multiset_has_no_duplicates_conv();
        assert forall|i: int, j: int| 0 <= i < j < r@.len() implies (#[trigger] r@[i]).count > (
        #[trigger] r@[j]).count || (r@[i].count == r@[j].count && r@[i].size < r@[j].size) by {
            assert(r@[i].key() <= r@[j].key());
            assert(r@[i] != r@[j]);
        }
    }
    r
}

/// How many sizes are shown of each direction.
pub const SHOWN_SIZES: usize = 8;

/// One direction of a trace.
pub struct DirectionSummary {
    pub records: usize,
    /// Every size that occurs, most frequent first.
    pub sizes: Vec<SizeCount>,
}

impl DirectionSummary {
    /// The sizes to show: the first few.
    pub fn shown(&self) -> (r: &[SizeCount])
        ensures
            r@ == self.sizes@.take(
                if self.sizes@.len() < SHOWN_SIZES {
                    self.sizes@.len() as int
                } else {
                    SHOWN_SIZES as int
                },
            ),
    {
        let n: usize = if self.sizes.len() < SHOWN_SIZES {
            self.sizes.len()
        } else {
            SHOWN_SIZES
        };
        let r: &[SizeCount] = vstd::slice::slice_subrange(self.sizes.as_slice(), 0, n);
        assert(r@ =~= self.sizes@.take(n as int));
        r
    }

    /// How many sizes are not shown.
    pub fn more(&self) -> (r: usize)
        ensures
            r == if self.sizes@.len() > SHOWN_SIZES {
                self.sizes@.len() - SHOWN_SIZES
            } else {
                0
            },
    {
        if self.sizes.len() > SHOWN_SIZES {
            self.sizes.len() - SHOWN_SIZES
        } else {
            0
        }
    }
}

/// What is said about one trace.
pub struct Summary {
    pub connections: usize,
    pub records: usize,
    pub bytes: usize,
    pub up: Option<DirectionSummary>,
    pub down: Option<DirectionSummary>,
    /// Percentiles of the gaps between the records of a connection, in seconds.
    pub gaps: Vec<(u32, Ratio)>,
}

/// The percentiles that are reported.
pub open spec fn percents() -> Seq<u32> {
    seq![5u32, 25, 50, 75, 95]
}

/// The application-data records of all connections.
pub open spec fn flat_records(groups: Seq<(u32, Vec<Record<i64>>)>) -> Seq<Record<i64>>
    decreases groups.len(),
{
    if groups.len() == 0 {
        Seq::empty()
    } else {
        flat_records(groups.drop_last()) + crate::trace::stats::application(groups.last().1@)
    }
}

/// The gaps between the application-data records of all connections, never across two of them.
pub open spec fn flat_gaps(groups: Seq<(u32, Vec<Record<i64>>)>) -> Seq<i64>
    decreases groups.len(),
{
    if groups.len() == 0 {
        Seq::empty()
    } else {
        flat_gaps(groups.drop_last()) + crate::trace::stats::gaps_of(
            crate::trace::stats::application(groups.last().1@),
        )
    }
}

/// The sizes of the records that went one way.
pub open spec fn sizes_going(records: Seq<Record<i64>>, dir: Direction) -> Seq<usize> {
    crate::trace::stats::sizes_of(crate::trace::stats::going(records, dir))
}

/// Whether a summary of one direction says what its sizes are; there is none of an empty one.
pub open spec fn sums_up(d: Option<DirectionSummary>, sizes: Seq<usize>) -> bool {
    &&& d is None <==> sizes.len() == 0
    &&& d matches Some(d) ==> d.records == sizes.len() && tallies(sizes, d.sizes@)
}

impl Summary {
    /// Whether this is what there is to say of these connections.
    pub open spec fn describes(self, groups: Seq<(u32, Vec<Record<i64>>)>) -> bool {
        let all = flat_records(groups);
        let gaps = crate::trace::stats::ascending(flat_gaps(groups));
        &&& self.connections == groups.len()
        &&& self.records == all.len()
        &&& self.bytes == crate::trace::stats::sum_of(crate::trace::stats::sizes_of(all))
        &&& sums_up(self.up, sizes_going(all, Direction::Up))
        &&& sums_up(self.down, sizes_going(all, Direction::Down))
        &&& self.gaps@.len() == if gaps.len() == 0 {
            0
        } else {
            percents().len()
        }
        &&& forall|i: int|
            0 <= i < self.gaps@.len() ==> {
                &&& (#[trigger] self.gaps@[i]).0 == percents()[i]
                &&& self.gaps@[i].1.num == crate::trace::stats::quantile_of(
                    gaps,
                    percents()[i] as int,
                    100,
                )
                &&& self.gaps@[i].1.den == 100 * MICROS
            }
    }
}

/// Reads the sizes of the records that went one way.
fn read_sizes_going(records: &[Record<i64>], dir: Direction) -> (r: Vec<usize>)
    ensures
        r@ == sizes_going(records@, dir),
{
    let mut out: Vec<usize> = Vec::new();
    let mut i: usize = 0;
    proof {
        reveal(Seq::filter);
        assert(records@.take(0) =~= Seq::empty());
    }
    while i < records.len()
        invariant
            i <= records@.len(),
            out@ =~= sizes_going(records@.take(i as int), dir),
        decreases records@.len() - i,
    {
        proof {
            reveal(Seq::filter);
            assert(records@.take(i + 1).drop_last() =~= records@.take(i as int));
        }
        if records[i].dir == dir {
            out.push(records[i].len);
        }
        i = i + 1;
    }
    assert(records@.take(i as int) =~= records@);
    out
}

fn sum_up(sizes: Vec<usize>) -> (r: Option<DirectionSummary>)
    ensures
        sums_up(r, sizes@),
{
    if sizes.len() == 0 {
        None
    } else {
        Some(DirectionSummary { records: sizes.len(), sizes: tally(sizes.as_slice()) })
    }
}

/// Describes one trace: sizes, gaps, direction balance. There is nothing to describe where no
/// connection has application-data records.
pub fn summarise(groups: &[(u32, Vec<Record<i64>>)]) -> (r: Option<Summary>)
    requires
        all_measurable(groups@),
        crate::trace::stats::sum_of(crate::trace::stats::sizes_of(flat_records(groups@)))
            <= usize::MAX,
    ensures
        r is None <==> flat_records(groups@).len() == 0,
        r matches Some(s) ==> s.describes(groups@),
{
    let mut all: Vec<Record<i64>> = Vec::new();
    let mut raw: Vec<i64> = Vec::new();
    let mut i: usize = 0;
    while i < groups.len()
        invariant
            i <= groups@.len(),
            all_measurable(groups@),
            all@ == flat_records(groups@.take(i as int)),
            raw@ == flat_gaps(groups@.take(i as int)),
        decreases groups@.len() - i,
    {
        proof {
            assert(measurable(groups@[i as int].1@));
            assert(groups@.take(i + 1).drop_last() =~= groups@.take(i as int));
        }
        let mut app: Vec<Record<i64>> = application_records(groups[i].1.as_slice());
        let mut gaps: Vec<i64> = record_gaps(app.as_slice());
        all.append(&mut app);
        raw.append(&mut gaps);
        i = i + 1;
    }
    assert(groups@.take(i as int) =~= groups@);
    if all.len() == 0 {
        return None;
    }
    let sizes: Vec<usize> = crate::trace::stats::record_sizes(all.as_slice());
    let gaps: Vec<i64> = sort_times(raw.as_slice());
    Some(
        Summary {
            connections: groups.len(),
            records: all.len(),
            bytes: sum_sizes(sizes.as_slice()),
            up: sum_up(read_sizes_going(all.as_slice(), Direction::Up)),
            down: sum_up(read_sizes_going(all.as_slice(), Direction::Down)),
            gaps: gap_percentiles(gaps.as_slice()),
        },
    )
}

/// The percentiles of sorted gaps, in seconds; none where there is no gap.
fn gap_percentiles(gaps: &[i64]) -> (r: Vec<(u32, Ratio)>)
    ensures
        r@.len() == if gaps@.len() == 0 {
            0
        } else {
            percents().len()
        },
        forall|i: int|
            0 <= i < r@.len() ==> {
                &&& (#[trigger] r@[i]).0 == percents()[i]
                &&& r@[i].1.num == crate::trace::stats::quantile_of(gaps@, percents()[i] as int, 100)
                &&& r@[i].1.den == 100 * MICROS
            },
{
    let mut out: Vec<(u32, Ratio)> = Vec::new();
    if gaps.len() == 0 {
        return out;
    }
    let wanted: [u32; 5] = [5, 25, 50, 75, 95];
    assert(wanted@ =~= percents());
    let mut i: usize = 0;
    while i < 5
        invariant
            i <= 5,
            out@.len() == i,
            wanted@ == percents(),
            forall|k: int|
                0 <= k < i ==> {
                    &&& (#[trigger] out@[k]).0 == percents()[k]
                    &&& out@[k].1.num == crate::trace::stats::quantile_of(
                        gaps@,
                        percents()[k] as int,
                        100,
                    )
                    &&& out@[k].1.den == 100 * MICROS
                },
        decreases 5 - i,
    {
        let p: u32 = wanted[i];
        assert(p == percents()[i as int]);
        let q: Ratio = quantile(gaps, p, 100);
        out.push((p, Ratio { num: q.num, den: 100 * MICROS }));
        i = i + 1;
    }
    out
}

/// How long a bar stands for a separation: from nothing at one half to twenty at one, rounded to
/// the nearest, halves upwards.
pub open spec fn bar_of(num: int, den: int) -> int {
    if 2 * num <= den {
        0
    } else {
        (80 * num - 39 * den) / (2 * den)
    }
}

/// The length of the bar for a separation.
pub fn bar_length(separation: &Ratio) -> (r: usize)
    requires
        separation.wf(),
        0 <= separation.num <= separation.den,
    ensures
        r == bar_of(separation.num as int, separation.den as int),
{
    let (num, den): (i128, i128) = (separation.num, separation.den as i128);
    if 2 * num <= den {
        0
    } else {
        let top: u128 = (80 * num - 39 * den) as u128;
        let bottom: u128 = 2 * separation.den as u128;
        proof {
            vstd::arithmetic::div_mod::lemma_div_is_ordered(
                top as int,
                41 * den,
                bottom as int,
            );
            assert((41 * den) / (bottom as int) <= 20) by (nonlinear_arith)
                requires
                    bottom == 2 * den,
                    den > 0,
            ;
        }
        (top / bottom) as usize
    }
}

/// Every connection of a trace has one group, in the order of the numbers. The records of a group
/// are those of its connection, no more and no fewer, in the order of their times.
pub proof fn law_a_group_holds_the_records_of_its_connection(
    traced: Seq<TracedRecord<i64>>,
    groups: Seq<(u32, Vec<Record<i64>>)>,
    g: int,
    k: int,
    i: int,
    j: int,
)
    requires
        groups_trace(traced, groups),
        0 <= g < groups.len(),
    ensures
        0 <= i < j < groups.len() ==> groups[i].0 < groups[j].0,
        0 <= k < traced.len() ==> has_group(groups, traced[k].conn),
        0 <= k < traced.len() && traced[k].conn == groups[g].0 ==> groups[g].1@.contains(
            traced[k].record,
        ),
        0 <= i < groups[g].1@.len() ==> exists|n: int|
            0 <= n < traced.len() && (#[trigger] traced[n]).conn == groups[g].0 && traced[n].record
                == groups[g].1@[i],
        0 <= i <= j < groups[g].1@.len() ==> groups[g].1@[i].t <= groups[g].1@[j].t,
        groups[g].1@.len() == traced.filter(|t: TracedRecord<i64>| t.conn == groups[g].0).len(),
        groups[g].1@.len() > 0,
{
    broadcast use vstd::seq_lib::group_to_multiset_ensures;

    let conn = groups[g].0;
    let records = groups[g].1@;
    let own = crate::trace::sorting::of_key(traced, conn as int);
    let of = of_connection(traced, conn);
    assert(crate::trace::sorting::sorts(of, records));
    let keep = |t: TracedRecord<i64>| t.key() == conn as int;
    crate::trace::sorting::lemma_of_key_is_a_filter(traced, conn as int, keep);
    if 0 <= k < traced.len() {
        assert(traces(traced, traced[k].conn));
        if traced[k].conn == conn {
            traced.lemma_filter_contains(keep, k);
            let n = choose|n: int| 0 <= n < own.len() && own[n] == traced[k];
            assert(of[n] == traced[k].record);
            assert(of.contains(traced[k].record));
            assert(records.to_multiset().count(traced[k].record) > 0);
        }
    }
    if 0 <= i < records.len() {
        assert(records.contains(records[i]));
        assert(of.to_multiset().count(records[i]) > 0);
        assert(of.contains(records[i]));
        let n = choose|n: int| 0 <= n < of.len() && of[n] == records[i];
        traced.lemma_filter_pred(keep, n);
        assert(own.contains(own[n]));
        traced.lemma_filter_contains_rev(keep, own[n]);
        let p = choose|p: int| 0 <= p < traced.len() && traced[p] == own[n];
        assert(traced[p].conn == conn && traced[p].record == records[i]);
    }
    if 0 <= i <= j < records.len() {
        assert(records[i].key() <= records[j].key());
    }
    let same = |t: TracedRecord<i64>| t.conn == groups[g].0;
    crate::trace::sorting::lemma_of_key_is_a_filter(traced, conn as int, same);
    assert(same =~= (|t: TracedRecord<i64>| t.conn == groups[g].0));
    assert(has_group(groups, conn));
    let p = choose|p: int| 0 <= p < traced.len() && (#[trigger] traced[p]).conn == conn;
    traced.lemma_filter_contains(keep, p);
}

/// One connection more: it counts one, and adds the records and the bytes of its application data,
/// by the way they went, and nothing of its handshake.
pub proof fn law_one_connection_more(
    s: Summary,
    more: Summary,
    groups: Seq<(u32, Vec<Record<i64>>)>,
    new: (u32, Vec<Record<i64>>),
    app: Seq<Record<i64>>,
)
    requires
        s.describes(groups),
        more.describes(groups.push(new)),
        app == new.1@.filter(|r: Record<i64>| r.ct == 23),
    ensures
        more.connections == s.connections + 1,
        more.records == s.records + app.len(),
        more.bytes == s.bytes + crate::trace::stats::sum_of(crate::trace::stats::sizes_of(app)),
        records_in(more.up) == records_in(s.up) + app.filter(
            |r: Record<i64>| r.dir == Direction::Up,
        ).len(),
        records_in(more.down) == records_in(s.down) + app.filter(
            |r: Record<i64>| r.dir == Direction::Down,
        ).len(),
{
    let all = groups.push(new);
    assert(all.drop_last() =~= groups);
    assert(crate::trace::stats::application(new.1@) == app);
    let before = flat_records(groups);
    assert(flat_records(all) == before + app);
    let (a, b) = (crate::trace::stats::sizes_of(before), crate::trace::stats::sizes_of(app));
    assert(crate::trace::stats::sizes_of(before + app) =~= a + b);
    lemma_sum_add(a, b);
    let up = |r: Record<i64>| r.dir == Direction::Up;
    let down = |r: Record<i64>| r.dir == Direction::Down;
    Seq::filter_distributes_over_add(before, app, up);
    Seq::filter_distributes_over_add(before, app, down);
    assert(crate::trace::stats::going(before + app, Direction::Up) == (before + app).filter(up));
    assert(crate::trace::stats::going(before, Direction::Up) == before.filter(up));
    assert(crate::trace::stats::going(before + app, Direction::Down) == (before + app).filter(
        down,
    ));
    assert(crate::trace::stats::going(before, Direction::Down) == before.filter(down));
}

/// How many records a direction has in a summary.
pub open spec fn records_in(d: Option<DirectionSummary>) -> int {
    match d {
        Some(d) => d.records as int,
        None => 0,
    }
}

proof fn lemma_sum_add(a: Seq<usize>, b: Seq<usize>)
    ensures
        crate::trace::stats::sum_of(a + b) == crate::trace::stats::sum_of(a)
            + crate::trace::stats::sum_of(b),
    decreases b.len(),
{
    if b.len() == 0 {
        assert(a + b =~= a);
    } else {
        assert((a + b).drop_last() =~= a + b.drop_last());
        lemma_sum_add(a, b.drop_last());
    }
}

/// Sizes add up: nothing for none, and each one more adds itself.
pub proof fn law_sizes_add_up(sizes: Seq<usize>, more: usize)
    ensures
        crate::trace::stats::sum_of(Seq::empty()) == 0,
        crate::trace::stats::sum_of(sizes.push(more)) == crate::trace::stats::sum_of(sizes) + more,
{
    assert(sizes.push(more).drop_last() =~= sizes);
}

/// The gaps of a trace are those within its connections: one connection more adds the times from
/// each of its application-data records to the next, and none from another connection's.
pub proof fn law_gaps_never_cross_connections(
    groups: Seq<(u32, Vec<Record<i64>>)>,
    new: (u32, Vec<Record<i64>>),
    app: Seq<Record<i64>>,
    gaps: Seq<i64>,
)
    requires
        app == new.1@.filter(|r: Record<i64>| r.ct == 23),
        app.len() > 0,
        crate::trace::stats::between(app, gaps),
    ensures
        flat_gaps(Seq::empty()) == Seq::<i64>::empty(),
        flat_gaps(groups.push(new)) == flat_gaps(groups) + gaps,
{
    assert(groups.push(new).drop_last() =~= groups);
    assert(crate::trace::stats::application(new.1@) == app);
    assert(crate::trace::stats::gaps_of(app) =~= gaps);
}

/// The percentiles of the gaps are those at 5, 25, 50, 75 and 95 hundredths of the way through the
/// gaps in order, between two gaps the part of the way from one to the other; they never fall from
/// one to the next, and the order in which the gaps came does not matter.
pub proof fn law_percentiles_have_their_ranks(
    s: Summary,
    groups: Seq<(u32, Vec<Record<i64>>)>,
    gaps: Seq<i64>,
    i: int,
)
    requires
        s.describes(groups),
        gaps.to_multiset() == flat_gaps(groups).to_multiset(),
        gaps.len() > 0,
        0 <= i < 5,
    ensures
        s.gaps@.len() == 5,
        s.gaps@[0].0 == 5 && s.gaps@[1].0 == 25 && s.gaps@[2].0 == 50 && s.gaps@[3].0 == 75
            && s.gaps@[4].0 == 95,
        s.gaps@[i].1.den == 100_000_000,
        i < 4 ==> s.gaps@[i].1.num <= s.gaps@[i + 1].1.num,
        exists|a: i64, b: i64|
            #![trigger gaps.contains(a), gaps.contains(b)]
            {
                let n = gaps.len() as int;
                let at = s.gaps@[i].0 * (n - 1);
                let (k, part) = (at / 100, at % 100);
                &&& gaps.contains(a) && gaps.contains(b)
                &&& crate::trace::stats::has_rank(gaps, a, k)
                &&& crate::trace::stats::has_rank(gaps, b, if part > 0 { k + 1 } else { k })
                &&& s.gaps@[i].1.num == 100 * a + (b - a) * part
            },
{
    let raw = flat_gaps(groups);
    crate::trace::stats::lemma_order_does_not_matter(gaps, raw);
    crate::trace::stats::lemma_ascending(gaps);
    crate::trace::stats::lemma_ascending(raw);
    assert(s.gaps@[0].0 == percents()[0] && s.gaps@[1].0 == percents()[1] && s.gaps@[2].0
        == percents()[2] && s.gaps@[3].0 == percents()[3] && s.gaps@[4].0 == percents()[4]);
    let p = percents()[i] as int;
    let (a, b) = crate::trace::stats::lemma_quantile_by_rank(gaps, p, 100);
    assert(gaps.contains(a) && gaps.contains(b));
    if i < 4 {
        assert(s.gaps@[i + 1].0 == percents()[i + 1]);
        crate::trace::stats::lemma_quantiles_rise(
            crate::trace::stats::ascending(gaps),
            p,
            percents()[i + 1] as int,
            100,
        );
    }
}

/// A bar is forty times what a separation exceeds one half by, to the nearest whole number: nothing
/// up to one half, twenty at one, and never shorter for a better separation.
pub proof fn law_a_bar_grows_with_the_separation(num: int, den: int, more: int)
    requires
        den > 0,
        0 <= num <= more <= den,
    ensures
        2 * num <= den ==> bar_of(num, den) == 0,
        2 * num >= den ==> -den <= 2 * den * bar_of(num, den) - 40 * (2 * num - den) <= den,
        bar_of(num, den) <= bar_of(more, den) <= 20,
        bar_of(den, den) == 20,
{
    let (top, above) = (80 * num - 39 * den, 80 * more - 39 * den);
    let bottom = 2 * den;
    vstd::arithmetic::div_mod::lemma_fundamental_div_mod(top, bottom);
    vstd::arithmetic::div_mod::lemma_mod_bound(top, bottom);
    vstd::arithmetic::div_mod::lemma_div_is_ordered(top, above, bottom);
    vstd::arithmetic::div_mod::lemma_div_is_ordered(above, 41 * den, bottom);
    assert(41 * den / bottom == 20) by (nonlinear_arith)
        requires
            bottom == 2 * den,
            den > 0,
    ;
    assert(80 * den - 39 * den == 41 * den);
    if 2 * num > den {
        let q = top / bottom;
        assert(bottom * q == 2 * den * q) by (nonlinear_arith)
            requires
                bottom == 2 * den,
        ;
    }
    if 2 * num == den {
        assert(2 * den * 0 == 0);
    }
    if 2 * more > den {
        vstd::arithmetic::div_mod::lemma_div_pos_is_pos(above, bottom);
    }
}

/// Every size that occurs is tallied, once and with how often it occurs, and no other is; a size
/// that occurs more often is listed before one that occurs less often, and of two that occur
/// equally often the smaller one first.
pub proof fn law_every_size_is_tallied_once(
    sizes: Seq<usize>,
    counts: Seq<SizeCount>,
    size: usize,
    i: int,
    j: int,
)
    requires
        tallies(sizes, counts),
    ensures
        sizes.contains(size) <==> exists|k: int|
            0 <= k < counts.len() && (#[trigger] counts[k]).size == size,
        0 <= i < counts.len() ==> counts[i].count == sizes.filter(
            |n: usize| n == counts[i].size,
        ).len(),
        0 <= i < counts.len() ==> counts[i].count > 0,
        0 <= i < j < counts.len() ==> counts[i].size != counts[j].size,
        0 <= i < j < counts.len() ==> counts[i].count > counts[j].count || (counts[i].count
            == counts[j].count && counts[i].size < counts[j].size),
{
    if 0 <= i < counts.len() {
        let same = |n: usize| n == counts[i].size;
        crate::trace::sorting::lemma_of_key_is_a_filter(sizes, counts[i].size as int, same);
        assert(same =~= (|n: usize| n == counts[i].size));
    }
    if exists|k: int| 0 <= k < counts.len() && (#[trigger] counts[k]).size == size {
        let k = choose|k: int| 0 <= k < counts.len() && (#[trigger] counts[k]).size == size;
        let same = |n: usize| n == size;
        crate::trace::sorting::lemma_of_key_is_a_filter(sizes, size as int, same);
        let kept = sizes.filter(same);
        assert(kept.len() > 0);
        sizes.lemma_filter_pred(same, 0);
        assert(kept.contains(kept[0]));
        sizes.lemma_filter_contains_rev(same, kept[0]);
    }
    if 0 <= i < j < counts.len() && counts[i].size == counts[j].size {
        assert(counts[i].count == occurrences(sizes, counts[i].size));
        assert(counts[j].count == occurrences(sizes, counts[j].size));
    }
}

/// What is said of a trace: as many connections as it has groups; a direction is described exactly
/// if a record went that way, by as many records as went; and percentiles are given exactly if
/// there is a gap.
pub proof fn law_what_is_not_there_is_not_described(
    s: Summary,
    groups: Seq<(u32, Vec<Record<i64>>)>,
)
    requires
        s.describes(groups),
    ensures
        s.connections == groups.len(),
        flat_gaps(groups).len() == 0 <==> s.gaps@.len() == 0,
        s.up is None <==> records_in(s.up) == 0,
        s.down is None <==> records_in(s.down) == 0,
        records_in(s.up) + records_in(s.down) == s.records,
{
    crate::trace::stats::lemma_ascending(flat_gaps(groups));
    crate::trace::stats::law_every_record_goes_one_way(flat_records(groups));
}

}
