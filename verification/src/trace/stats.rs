//! Turning a trace into the numbers an adversary would get, and refusing to report more than that.
//!
//! * **A connection is one observation.** Records inside a connection are not independent draws.
//!   Every figure here is computed per connection and only then aggregated, so a single chatty
//!   capture cannot masquerade as a thousand samples.
//! * **No p-values.** What is reported is how well the cheapest classifiers separate two sets: a
//!   lower bound on the adversary's cheapest attack, which is the honest direction to measure.
//!
//! Times are whole microseconds, the resolution of a capture, and every figure is an exact
//! fraction.

use crate::trace::ratio::{Ratio, Standing};
use crate::trace::records::{Direction, Record, CT_APPLICATION_DATA};
use crate::trace::sorting::{sort_stably, Keyed};
use vstd::prelude::*;

verus! {

/// Microseconds in a second.
pub const MICROS: u64 = 1_000_000;

/// A sequence by ascending value.
pub open spec fn ascending(s: Seq<i64>) -> Seq<i64> {
    s.sort_by(|x: i64, y: i64| x <= y)
}

/// Where between two neighbours the quantile `qn / qd` of `n` sorted values lies: the index of the
/// lower one, and how many `qd`-ths of the way to the next.
pub open spec fn quantile_at(n: int, qn: int, qd: int) -> (int, int) {
    ((qn * (n - 1)) / qd, (qn * (n - 1)) % qd)
}

/// The linearly interpolated quantile `qn / qd` of sorted values, in `qd`-ths.
pub open spec fn quantile_of(sorted: Seq<i64>, qn: int, qd: int) -> int {
    let (lo, part) = quantile_at(sorted.len() as int, qn, qd);
    if sorted.len() == 0 {
        0
    } else if part == 0 {
        sorted[lo] * qd
    } else {
        sorted[lo] * qd + (sorted[lo + 1] - sorted[lo]) * part
    }
}

proof fn lemma_quantile_at(n: int, qn: int, qd: int)
    requires
        n > 0,
        0 <= qn <= qd,
        qd > 0,
    ensures
        0 <= quantile_at(n, qn, qd).0 < n,
        0 <= quantile_at(n, qn, qd).1 < qd,
        quantile_at(n, qn, qd).1 > 0 ==> quantile_at(n, qn, qd).0 + 1 < n,
{
    let pos = qn * (n - 1);
    let (lo, part) = quantile_at(n, qn, qd);
    assert(0 <= pos <= qd * (n - 1)) by (nonlinear_arith)
        requires
            0 <= qn <= qd,
            n > 0,
            pos == qn * (n - 1),
    ;
    vstd::arithmetic::div_mod::lemma_fundamental_div_mod(pos, qd);
    vstd::arithmetic::div_mod::lemma_div_pos_is_pos(pos, qd);
    assert(lo <= n - 1) by (nonlinear_arith)
        requires
            qd * lo + part == pos,
            part >= 0,
            pos <= qd * (n - 1),
            qd > 0,
    ;
    if part > 0 {
        assert(lo < n - 1) by (nonlinear_arith)
            requires
                qd * lo + part == pos,
                part > 0,
                pos <= qd * (n - 1),
                qd > 0,
        ;
    }
}

/// Linear-interpolated quantile `q_num / q_den` of an already sorted slice, as a fraction over
/// `q_den`.
pub fn quantile(sorted: &[i64], q_num: u32, q_den: u32) -> (r: Ratio)
    requires
        q_den > 0,
        q_num <= q_den,
    ensures
        r.wf(),
        r.num == quantile_of(sorted@, q_num as int, q_den as int),
        r.den == q_den,
{
    if sorted.len() == 0 {
        return Ratio { num: 0, den: q_den as u64 };
    }
    let ghost n = sorted@.len() as int;
    proof {
        lemma_quantile_at(n, q_num as int, q_den as int);
        assert(0 <= q_num * (n - 1) <= u128::MAX) by (nonlinear_arith)
            requires
                0 <= q_num <= u32::MAX,
                0 < n <= u64::MAX,
        ;
    }
    let pos: u128 = q_num as u128 * (sorted.len() - 1) as u128;
    let lo: usize = (pos / q_den as u128) as usize;
    let part: u32 = (pos % q_den as u128) as u32;
    let value: i64 = sorted[lo];
    assert(-0x1_0000_0000_0000_0000_0000_0000 < value * q_den < 0x1_0000_0000_0000_0000_0000_0000)
        by (nonlinear_arith)
        requires
            -0x1_0000_0000_0000_0000 < value < 0x1_0000_0000_0000_0000,
            0 <= q_den <= 0xffff_ffff,
    ;
    let base: i128 = value as i128 * q_den as i128;
    if part == 0 {
        return Ratio { num: base, den: q_den as u64 };
    }
    let step: i128 = sorted[lo + 1] as i128 - value as i128;
    assert(-0x1_0000_0000_0000_0000_0000_0000 < step * part < 0x1_0000_0000_0000_0000_0000_0000)
        by (nonlinear_arith)
        requires
            -0x1_0000_0000_0000_0000 < step < 0x1_0000_0000_0000_0000,
            0 <= part <= 0xffff_ffff,
    ;
    Ratio { num: base + step * part as i128, den: q_den as u64 }
}

/// What one comparison counts, in half wins.
pub open spec fn points(x: Ratio, y: Ratio) -> int {
    match x.standing(y) {
        Standing::Below => 0,
        Standing::Level => 1,
        Standing::Above => 2,
    }
}

/// The half wins of one value against a group.
pub open spec fn points_against(x: Ratio, ys: Seq<Ratio>) -> int
    decreases ys.len(),
{
    if ys.len() == 0 {
        0
    } else {
        points_against(x, ys.drop_last()) + points(x, ys.last())
    }
}

/// The half wins of one group against another, every value against every value.
pub open spec fn half_wins(xs: Seq<Ratio>, ys: Seq<Ratio>) -> int
    decreases xs.len(),
{
    if xs.len() == 0 {
        0
    } else {
        half_wins(xs.drop_last(), ys) + points_against(xs.last(), ys)
    }
}

/// Whether every fraction of a group has a denominator.
pub open spec fn all_wf(xs: Seq<Ratio>) -> bool {
    forall|i: int| 0 <= i < xs.len() ==> (#[trigger] xs[i]).wf()
}

/// The ROC-AUC of one group against another: the share of pairs that the first one wins, a tie
/// counting half. A coin flip where a group is empty.
pub open spec fn auc_of(xs: Seq<Ratio>, ys: Seq<Ratio>) -> (int, int) {
    if xs.len() == 0 || ys.len() == 0 {
        (1, 2)
    } else {
        (half_wins(xs, ys), 2 * (xs.len() * ys.len()) as int)
    }
}

proof fn lemma_points_bound(x: Ratio, ys: Seq<Ratio>)
    ensures
        0 <= points_against(x, ys) <= 2 * ys.len(),
    decreases ys.len(),
{
    if ys.len() > 0 {
        lemma_points_bound(x, ys.drop_last());
    }
}

proof fn lemma_half_wins_bound(xs: Seq<Ratio>, ys: Seq<Ratio>)
    ensures
        0 <= half_wins(xs, ys) <= 2 * (xs.len() * ys.len()),
    decreases xs.len(),
{
    if xs.len() > 0 {
        lemma_half_wins_bound(xs.drop_last(), ys);
        lemma_points_bound(xs.last(), ys);
        assert(xs.len() * ys.len() == (xs.len() - 1) * ys.len() + ys.len()) by (nonlinear_arith);
    } else {
        assert(0 * ys.len() == 0);
    }
}

/// How well one feature alone separates two groups, as ROC-AUC.
///
/// One half is a coin flip. A feature that predicts the wrong way is just as useful to an
/// adversary, so `separations` folds the value around one half.
pub fn auc(group_a: &[Ratio], group_b: &[Ratio]) -> (r: Ratio)
    requires
        all_wf(group_a@),
        all_wf(group_b@),
        2 * (group_a@.len() * group_b@.len()) <= u64::MAX,
    ensures
        r.wf(),
        (r.num as int, r.den as int) == auc_of(group_a@, group_b@),
{
    let (n, m): (usize, usize) = (group_a.len(), group_b.len());
    if n == 0 || m == 0 {
        return Ratio { num: 1, den: 2 };
    }
    let ghost (xs, ys) = (group_a@, group_b@);
    let mut wins: i128 = 0;
    let mut i: usize = 0;
    while i < n
        invariant
            i <= n,
            n == xs.len(),
            m == ys.len(),
            xs == group_a@,
            ys == group_b@,
            all_wf(xs),
            all_wf(ys),
            2 * (xs.len() * ys.len()) <= u64::MAX,
            wins == half_wins(xs.take(i as int), ys),
        decreases n - i,
    {
        let ghost before = half_wins(xs.take(i as int), ys);
        proof {
            lemma_half_wins_bound(xs.take(i as int), ys);
            assert(i * ys.len() <= xs.len() * ys.len()) by (nonlinear_arith)
                requires
                    i <= xs.len(),
            ;
        }
        let x: Ratio = group_a[i];
        let mut j: usize = 0;
        while j < m
            invariant
                j <= m,
                m == ys.len(),
                ys == group_b@,
                all_wf(ys),
                x.wf(),
                0 <= before <= u64::MAX,
                wins == before + points_against(x, ys.take(j as int)),
            decreases m - j,
        {
            proof {
                lemma_points_bound(x, ys.take(j as int));
                assert(ys.take(j + 1).drop_last() =~= ys.take(j as int));
            }
            let gain: i128 = match x.compare(&group_b[j]) {
                Standing::Below => 0,
                Standing::Level => 1,
                Standing::Above => 2,
            };
            wins = wins + gain;
            j = j + 1;
        }
        assert(ys.take(j as int) =~= ys);
        assert(xs.take(i + 1).drop_last() =~= xs.take(i as int));
        i = i + 1;
    }
    proof {
        assert(xs.take(i as int) =~= xs);
        assert(n * m > 0) by (nonlinear_arith)
            requires
                n > 0,
                m > 0,
        ;
    }
    Ratio { num: wins, den: 2 * (n as u64 * m as u64) }
}

/// Swapping the groups turns the value around: the two add up to one.
pub proof fn law_auc_turns_around(xs: Seq<Ratio>, ys: Seq<Ratio>)
    ensures
        auc_of(xs, ys).1 == auc_of(ys, xs).1,
        auc_of(xs, ys).0 + auc_of(ys, xs).0 == auc_of(xs, ys).1,
{
    assert(xs.len() * ys.len() == ys.len() * xs.len()) by (nonlinear_arith);
    lemma_half_wins_swap(xs, ys);
}

proof fn lemma_half_wins_none(xs: Seq<Ratio>)
    ensures
        half_wins(xs, Seq::empty()) == 0,
    decreases xs.len(),
{
    if xs.len() > 0 {
        lemma_half_wins_none(xs.drop_last());
    }
}

/// One more value on the right adds its column.
proof fn lemma_half_wins_column(xs: Seq<Ratio>, ys: Seq<Ratio>)
    requires
        ys.len() > 0,
    ensures
        half_wins(xs, ys) == half_wins(xs, ys.drop_last()) + (2 * xs.len() - points_against(
            ys.last(),
            xs,
        )),
    decreases xs.len(),
{
    if xs.len() > 0 {
        lemma_half_wins_column(xs.drop_last(), ys);
    }
}

proof fn lemma_half_wins_swap(xs: Seq<Ratio>, ys: Seq<Ratio>)
    ensures
        half_wins(xs, ys) + half_wins(ys, xs) == 2 * (xs.len() * ys.len()),
    decreases ys.len(),
{
    if ys.len() == 0 {
        lemma_half_wins_none(xs);
        assert(ys =~= Seq::empty());
        assert(xs.len() * 0 == 0);
    } else {
        lemma_half_wins_swap(xs, ys.drop_last());
        lemma_half_wins_column(xs, ys);
        assert(xs.len() * ys.len() == xs.len() * (ys.len() - 1) + xs.len()) by (nonlinear_arith);
    }
}

/// The application-data records of a list.
pub open spec fn application(records: Seq<Record<i64>>) -> Seq<Record<i64>> {
    records.filter(|r: Record<i64>| r.ct == CT_APPLICATION_DATA)
}

/// The sizes of records.
pub open spec fn sizes_of(records: Seq<Record<i64>>) -> Seq<usize> {
    records.map_values(|r: Record<i64>| r.len)
}

/// The records that went one way.
pub open spec fn going(records: Seq<Record<i64>>, dir: Direction) -> Seq<Record<i64>> {
    records.filter(|r: Record<i64>| r.dir == dir)
}

/// The sum of sizes.
pub open spec fn sum_of(sizes: Seq<usize>) -> int
    decreases sizes.len(),
{
    if sizes.len() == 0 {
        0
    } else {
        sum_of(sizes.drop_last()) + sizes.last()
    }
}

/// The times between consecutive records.
pub open spec fn gaps_of(records: Seq<Record<i64>>) -> Seq<i64> {
    Seq::new(
        if records.len() == 0 {
            0
        } else {
            (records.len() - 1) as nat
        },
        |i: int| (records[i + 1].t - records[i].t) as i64,
    )
}

/// Whether the time between any two of the records can be held.
pub open spec fn spanned(records: Seq<Record<i64>>) -> bool {
    forall|i: int, j: int|
        0 <= i < records.len() && 0 <= j < records.len() ==> i64::MIN <= #[trigger] records[j].t
            - #[trigger] records[i].t <= i64::MAX
}

/// How many of the sizes are the smallest one.
pub open spec fn smallest_count(sizes: Seq<usize>) -> nat {
    let least = sizes.map_values(|n: usize| n as int).min();
    sizes.filter(|n: usize| n == least).len()
}

/// Picks the application-data records out.
pub fn application_records(records: &[Record<i64>]) -> (r: Vec<Record<i64>>)
    ensures
        r@ == application(records@),
{
    let mut app: Vec<Record<i64>> = Vec::new();
    let mut i: usize = 0;
    proof {
        reveal(Seq::filter);
        assert(records@.take(0) =~= Seq::empty());
    }
    while i < records.len()
        invariant
            i <= records.len(),
            app@ == application(records@.take(i as int)),
        decreases records.len() - i,
    {
        let record: Record<i64> = records[i];
        proof {
            reveal(Seq::filter);
            assert(records@.take(i + 1).drop_last() =~= records@.take(i as int));
        }
        if record.is_application() {
            app.push(record);
        }
        i = i + 1;
    }
    assert(records@.take(i as int) =~= records@);
    app
}

/// The sizes of records, in their order.
pub fn record_sizes(records: &[Record<i64>]) -> (r: Vec<usize>)
    ensures
        r@ == sizes_of(records@),
{
    let mut out: Vec<usize> = Vec::new();
    let mut i: usize = 0;
    while i < records.len()
        invariant
            i <= records.len(),
            out@ == sizes_of(records@).take(i as int),
        decreases records.len() - i,
    {
        out.push(records[i].len);
        i = i + 1;
        assert(out@ =~= sizes_of(records@).take(i as int));
    }
    assert(sizes_of(records@).take(i as int) =~= sizes_of(records@));
    out
}

/// A part of a sum is no more than the sum.
proof fn lemma_sum_part(sizes: Seq<usize>, n: int)
    requires
        0 <= n <= sizes.len(),
    ensures
        0 <= sum_of(sizes.take(n)) <= sum_of(sizes),
    decreases sizes.len(),
{
    if n == sizes.len() {
        assert(sizes.take(n) =~= sizes);
        if n > 0 {
            lemma_sum_part(sizes.drop_last(), n - 1);
        }
    } else {
        lemma_sum_part(sizes.drop_last(), n);
        assert(sizes.drop_last().take(n) =~= sizes.take(n));
    }
}

/// Adds sizes up.
pub fn sum_sizes(sizes: &[usize]) -> (r: usize)
    requires
        sum_of(sizes@) <= usize::MAX,
    ensures
        r == sum_of(sizes@),
{
    let mut sum: usize = 0;
    let mut i: usize = 0;
    while i < sizes.len()
        invariant
            i <= sizes.len(),
            sum == sum_of(sizes@.take(i as int)),
            sum_of(sizes@) <= usize::MAX,
        decreases sizes.len() - i,
    {
        proof {
            lemma_sum_part(sizes@, i + 1);
            assert(sizes@.take(i + 1).drop_last() =~= sizes@.take(i as int));
        }
        sum = sum + sizes[i];
        i = i + 1;
    }
    assert(sizes@.take(i as int) =~= sizes@);
    sum
}

/// How many records went one way.
fn count_going(records: &[Record<i64>], dir: Direction) -> (r: usize)
    ensures
        r == going(records@, dir).len(),
{
    let mut n: usize = 0;
    let mut i: usize = 0;
    proof {
        reveal(Seq::filter);
        assert(records@.take(0) =~= Seq::empty());
    }
    while i < records.len()
        invariant
            i <= records.len(),
            n <= i,
            n == going(records@.take(i as int), dir).len(),
        decreases records.len() - i,
    {
        proof {
            reveal(Seq::filter);
            assert(records@.take(i + 1).drop_last() =~= records@.take(i as int));
        }
        if records[i].dir == dir {
            n = n + 1;
        }
        i = i + 1;
    }
    assert(records@.take(i as int) =~= records@);
    n
}

/// How many of the sizes are the smallest one.
fn count_smallest(sizes: &[usize]) -> (r: usize)
    requires
        sizes@.len() > 0,
    ensures
        r == smallest_count(sizes@),
        r <= sizes@.len(),
{
    let ghost wide = sizes@.map_values(|n: usize| n as int);
    let mut least: usize = sizes[0];
    let mut i: usize = 1;
    while i < sizes.len()
        invariant
            1 <= i <= sizes.len(),
            forall|j: int| 0 <= j < i ==> least <= sizes@[j],
            sizes@.contains(least),
        decreases sizes.len() - i,
    {
        if sizes[i] < least {
            least = sizes[i];
        }
        i = i + 1;
    }
    proof {
        wide.min_ensures();
        let at = choose|j: int| 0 <= j < sizes@.len() && sizes@[j] == least;
        assert(wide[at] == least);
        let k = choose|j: int| 0 <= j < wide.len() && wide[j] == wide.min();
        assert(sizes@[k] == wide.min());
        assert(wide.min() == least);
    }
    let ghost hits = |n: usize| n == wide.min();
    let mut count: usize = 0;
    let mut k: usize = 0;
    proof {
        reveal(Seq::filter);
        assert(sizes@.take(0) =~= Seq::empty());
    }
    while k < sizes.len()
        invariant
            k <= sizes.len(),
            count <= k,
            least == wide.min(),
            hits == (|n: usize| n == wide.min()),
            count == sizes@.take(k as int).filter(hits).len(),
        decreases sizes.len() - k,
    {
        proof {
            reveal(Seq::filter);
            assert(sizes@.take(k + 1).drop_last() =~= sizes@.take(k as int));
        }
        if sizes[k] == least {
            count = count + 1;
        }
        k = k + 1;
    }
    assert(sizes@.take(k as int) =~= sizes@);
    count
}

/// How many different sizes there are.
fn count_distinct(sizes: &[usize]) -> (r: usize)
    ensures
        r == sizes@.to_set().len(),
        r <= sizes@.len(),
{
    let sorted: Vec<usize> = sort_stably(sizes);
    let mut n: usize = 0;
    let mut i: usize = 0;
    proof {
        assert(sorted@.take(0).to_set() =~= Set::empty());
    }
    while i < sorted.len()
        invariant
            i <= sorted.len(),
            n <= i,
            crate::trace::sorting::ascends(sorted@),
            n == sorted@.take(i as int).to_set().len(),
        decreases sorted.len() - i,
    {
        proof {
            let x = sorted@[i as int];
            let before = sorted@.take(i as int);
            assert(sorted@.take(i + 1) =~= before.push(x));
            before.lemma_push_to_set_commute(x);
            vstd::seq_lib::seq_to_set_is_finite(before);
            if i > 0 && sorted@[i - 1] == x {
                assert(before[i - 1] == x);
                assert(before.to_set().contains(x));
                assert(before.to_set().insert(x) =~= before.to_set());
            } else {
                assert forall|j: int| 0 <= j < before.len() implies before[j] != x by {
                    if j < i {
                        assert(sorted@[j].key() <= sorted@[i - 1].key());
                        assert(sorted@[i - 1].key() <= sorted@[i as int].key());
                    }
                }
                assert(!before.to_set().contains(x));
            }
        }
        if i == 0 || sorted[i] != sorted[i - 1] {
            n = n + 1;
        }
        i = i + 1;
    }
    proof {
        assert(sorted@.take(i as int) =~= sorted@);
        lemma_same_set(sorted@, sizes@);
    }
    n
}

/// Reordering does not change which values there are.
proof fn lemma_same_set(a: Seq<usize>, b: Seq<usize>)
    requires
        a.to_multiset() == b.to_multiset(),
    ensures
        a.to_set() == b.to_set(),
{
    broadcast use vstd::seq_lib::group_to_multiset_ensures;

    assert forall|x: usize| a.to_set().contains(x) <==> b.to_set().contains(x) by {
        assert(a.contains(x) <==> a.to_multiset().count(x) > 0);
        assert(b.contains(x) <==> b.to_multiset().count(x) > 0);
    }
    assert(a.to_set() =~= b.to_set());
}

/// The times between consecutive records, in order of occurrence.
pub fn record_gaps(records: &[Record<i64>]) -> (r: Vec<i64>)
    requires
        spanned(records@),
    ensures
        r@ == gaps_of(records@),
{
    let mut out: Vec<i64> = Vec::new();
    let mut i: usize = 1;
    while i < records.len()
        invariant
            1 <= i,
            records@.len() > 0 ==> i <= records@.len(),
            records@.len() == 0 ==> i == 1,
            spanned(records@),
            out@ =~= gaps_of(records@).take(i - 1),
        decreases records.len() - i,
    {
        let gap: i64 = records[i].t - records[i - 1].t;
        out.push(gap);
        i = i + 1;
    }
    assert(out@ =~= gaps_of(records@));
    out
}

/// Sorts times.
pub fn sort_times(times: &[i64]) -> (r: Vec<i64>)
    ensures
        r@ == ascending(times@),
{
    let r: Vec<i64> = sort_stably(times);
    proof {
        let leq = |x: i64, y: i64| x <= y;
        assert(vstd::relations::total_ordering(leq));
        times@.lemma_sort_by_ensures(leq);
        assert forall|i: int, j: int| 0 <= i < j < r@.len() implies #[trigger] leq(r@[i], r@[j]) by {
            assert(r@[i].key() <= r@[j].key());
        }
        assert(vstd::relations::sorted_by(r@, leq));
        vstd::seq_lib::lemma_sorted_unique(r@, ascending(times@), leq);
    }
    r
}

/// Everything one connection contributes, as an adversary's feature vector.
#[derive(Debug, Clone, Copy)]
pub struct ConnectionFeatures {
    pub records: usize,
    pub bytes: usize,
    /// From the first record to the last, in microseconds.
    pub duration: i64,
    pub up_records: usize,
    pub down_records: usize,
    /// Share of records that are the smallest size seen. Padding schemes concentrate here.
    pub modal_size_share: Ratio,
    /// Distinct record sizes. A bucketed sender has few; an ordinary web client has many.
    pub distinct_sizes: usize,
    /// Median gap between consecutive records, seconds.
    pub median_gap: Ratio,
    /// Spread of those gaps (interquartile range), seconds. A metronome has an IQR near zero.
    pub gap_iqr: Ratio,
    /// Bytes per second over the connection's life.
    pub bytes_per_second: Ratio,
}

/// How many features there are.
pub const FEATURES: usize = 9;

/// The name of a feature.
pub open spec fn feature_name(i: int) -> Seq<char> {
    if i == 0 {
        "records"@
    } else if i == 1 {
        "bytes"@
    } else if i == 2 {
        "duration"@
    } else if i == 3 {
        "up_down_ratio"@
    } else if i == 4 {
        "modal_size_share"@
    } else if i == 5 {
        "distinct_sizes"@
    } else if i == 6 {
        "median_gap"@
    } else if i == 7 {
        "gap_iqr"@
    } else {
        "bytes_per_second"@
    }
}

impl ConnectionFeatures {
    /// What holds of every feature vector.
    pub open spec fn wf(self) -> bool {
        &&& self.modal_size_share.wf()
        &&& self.median_gap.wf()
        &&& self.gap_iqr.wf()
        &&& self.bytes_per_second.wf()
    }

    /// Whether these are the features of the application-data records `app`.
    pub open spec fn describes(self, app: Seq<Record<i64>>) -> bool {
        let sizes = sizes_of(app);
        let gaps = ascending(gaps_of(app));
        &&& self.records == app.len()
        &&& self.bytes == sum_of(sizes)
        &&& self.duration == app.last().t - app.first().t
        &&& self.up_records == going(app, Direction::Up).len()
        &&& self.down_records == going(app, Direction::Down).len()
        &&& self.modal_size_share.num == smallest_count(sizes)
        &&& self.modal_size_share.den == app.len()
        &&& self.distinct_sizes == sizes.to_set().len()
        &&& self.median_gap.num == quantile_of(gaps, 1, 2)
        &&& self.median_gap.den == 2 * MICROS
        &&& self.gap_iqr.num == quantile_of(gaps, 3, 4) - quantile_of(gaps, 1, 4)
        &&& self.gap_iqr.den == 4 * MICROS
        &&& if self.duration > 0 {
            self.bytes_per_second.num == self.bytes * MICROS && self.bytes_per_second.den
                == self.duration
        } else {
            self.bytes_per_second == (Ratio { num: 0, den: 1 })
        }
    }

    /// The value of a feature.
    pub open spec fn feature(self, i: int) -> Ratio {
        if i == 0 {
            Ratio { num: self.records as i128, den: 1 }
        } else if i == 1 {
            Ratio { num: self.bytes as i128, den: 1 }
        } else if i == 2 {
            Ratio { num: self.duration as i128, den: MICROS }
        } else if i == 3 {
            Ratio {
                num: self.up_records as i128,
                den: if self.down_records == 0 {
                    1
                } else {
                    self.down_records as u64
                },
            }
        } else if i == 4 {
            self.modal_size_share
        } else if i == 5 {
            Ratio { num: self.distinct_sizes as i128, den: 1 }
        } else if i == 6 {
            self.median_gap
        } else if i == 7 {
            self.gap_iqr
        } else {
            self.bytes_per_second
        }
    }

    /// Derives the features of one connection from its application-data records; there are none
    /// for fewer than two of those.
    ///
    /// Handshake records are excluded on purpose: leaving them in would let a certificate's size
    /// drown out the shape of the session that follows.
    pub fn from_records(records: &[Record<i64>]) -> (r: Option<Self>)
        requires
            sum_of(sizes_of(application(records@))) <= usize::MAX,
            spanned(application(records@)),
        ensures
            r is Some <==> application(records@).len() >= 2,
            r matches Some(f) ==> f.wf() && f.describes(application(records@)),
            r matches Some(f) ==> f.records == f.up_records + f.down_records,
    {
        let app: Vec<Record<i64>> = application_records(records);
        if app.len() < 2 {
            return None;
        }
        let n: usize = app.len();
        let sizes: Vec<usize> = record_sizes(app.as_slice());
        let bytes: usize = sum_sizes(sizes.as_slice());
        let duration: i64 = app[n - 1].t - app[0].t;
        let raw: Vec<i64> = record_gaps(app.as_slice());
        let gaps: Vec<i64> = sort_times(raw.as_slice());
        let half: Ratio = quantile(gaps.as_slice(), 1, 2);
        let low: Ratio = quantile(gaps.as_slice(), 1, 4);
        let high: Ratio = quantile(gaps.as_slice(), 3, 4);
        proof {
            lemma_quantile_bound(gaps@, 1, 4);
            lemma_quantile_bound(gaps@, 3, 4);
            law_every_record_goes_one_way(app@);
        }
        let bytes_per_second: Ratio = if duration > 0 {
            Ratio { num: bytes as i128 * MICROS as i128, den: duration as u64 }
        } else {
            Ratio { num: 0, den: 1 }
        };
        Some(
            ConnectionFeatures {
                records: n,
                bytes,
                duration,
                up_records: count_going(app.as_slice(), Direction::Up),
                down_records: count_going(app.as_slice(), Direction::Down),
                modal_size_share: Ratio {
                    num: count_smallest(sizes.as_slice()) as i128,
                    den: n as u64,
                },
                distinct_sizes: count_distinct(sizes.as_slice()),
                median_gap: Ratio { num: half.num, den: 2 * MICROS },
                gap_iqr: Ratio { num: high.num - low.num, den: 4 * MICROS },
                bytes_per_second,
            },
        )
    }

    /// The features by name, so the classifier can walk them without knowing what they mean.
    pub fn named(&self) -> (r: Vec<(&'static str, Ratio)>)
        requires
            self.wf(),
        ensures
            r@.len() == FEATURES,
            forall|i: int|
                0 <= i < FEATURES ==> (#[trigger] r@[i]).0@ == feature_name(i) && r@[i].1
                    == self.feature(i) && r@[i].1.wf(),
    {
        let down: u64 = if self.down_records == 0 {
            1
        } else {
            self.down_records as u64
        };
        let mut r: Vec<(&'static str, Ratio)> = Vec::new();
        r.push(("records", Ratio::whole(self.records as i128)));
        r.push(("bytes", Ratio::whole(self.bytes as i128)));
        r.push(("duration", Ratio { num: self.duration as i128, den: MICROS }));
        r.push(("up_down_ratio", Ratio { num: self.up_records as i128, den: down }));
        r.push(("modal_size_share", self.modal_size_share));
        r.push(("distinct_sizes", Ratio::whole(self.distinct_sizes as i128)));
        r.push(("median_gap", self.median_gap));
        r.push(("gap_iqr", self.gap_iqr));
        r.push(("bytes_per_second", self.bytes_per_second));
        r
    }
}

/// A quantile lies between the values it is taken from.
proof fn lemma_quantile_bound(sorted: Seq<i64>, qn: int, qd: int)
    requires
        0 <= qn <= qd,
        0 < qd <= 4,
    ensures
        -0x1_0000_0000_0000_0000 * 8 <= quantile_of(sorted, qn, qd) <= 0x1_0000_0000_0000_0000 * 8,
{
    if sorted.len() > 0 {
        lemma_quantile_at(sorted.len() as int, qn, qd);
        let (lo, part) = quantile_at(sorted.len() as int, qn, qd);
        let (a, b) = (sorted[lo] as int, sorted[lo + 1] as int);
        assert(-0x1_0000_0000_0000_0000 * 2 <= a * qd <= 0x1_0000_0000_0000_0000 * 2)
            by (nonlinear_arith)
            requires
                -0x8000_0000_0000_0000 <= a <= 0x8000_0000_0000_0000,
                0 < qd <= 4,
        ;
        assert(-0x1_0000_0000_0000_0000 * 4 <= (b - a) * part <= 0x1_0000_0000_0000_0000 * 4)
            by (nonlinear_arith)
            requires
                -0x1_0000_0000_0000_0000 <= b - a <= 0x1_0000_0000_0000_0000,
                0 <= part < 4,
        ;
    }
}

/// What one feature achieves against the two sets of connections.
#[derive(Debug, Clone, Copy)]
pub struct FeatureSeparation {
    pub feature: &'static str,
    /// `max(auc, 1 - auc)`: one half = useless to an adversary, one = perfect.
    pub separation: Ratio,
}

/// Separations over the same two sets share a denominator, so the larger numerator ranks first.
impl Keyed for FeatureSeparation {
    open spec fn key(&self) -> int {
        -self.separation.num
    }

    fn not_after(&self, other: &Self) -> (r: bool) {
        self.separation.num >= other.separation.num
    }
}

/// The values of one feature over a set of connections.
pub open spec fn column(features: Seq<ConnectionFeatures>, i: int) -> Seq<Ratio> {
    features.map_values(|f: ConnectionFeatures| f.feature(i))
}

/// An AUC folded around one half: the larger of itself and its complement.
pub open spec fn folded(auc: (int, int)) -> (int, int) {
    (
        if 2 * auc.0 >= auc.1 {
            auc.0
        } else {
            auc.1 - auc.0
        },
        auc.1,
    )
}

/// How well feature `i` separates two sets of connections.
pub open spec fn separation_of(
    a: Seq<ConnectionFeatures>,
    b: Seq<ConnectionFeatures>,
    i: int,
) -> (int, int) {
    folded(auc_of(column(a, i), column(b, i)))
}

/// Whether `listed` gives every feature with its separation, in the order of the feature vector;
/// nothing where there is no connection at all.
pub open spec fn lists_separations(
    a: Seq<ConnectionFeatures>,
    b: Seq<ConnectionFeatures>,
    listed: Seq<FeatureSeparation>,
) -> bool {
    &&& listed.len() == if a.len() == 0 && b.len() == 0 {
        0
    } else {
        FEATURES as nat
    }
    &&& forall|i: int|
        0 <= i < listed.len() ==> {
            &&& (#[trigger] listed[i]).feature@ == feature_name(i)
            &&& (listed[i].separation.num as int, listed[i].separation.den as int)
                == separation_of(a, b, i)
        }
}

/// Whether every feature vector of a set is well-formed.
pub open spec fn all_described(features: Seq<ConnectionFeatures>) -> bool {
    forall|i: int| 0 <= i < features.len() ==> (#[trigger] features[i]).wf()
}

/// Reads one feature off a set of connections.
fn read_column(features: &[ConnectionFeatures], i: usize) -> (r: Vec<Ratio>)
    requires
        all_described(features@),
        i < FEATURES,
    ensures
        r@ == column(features@, i as int),
        all_wf(r@),
{
    let mut out: Vec<Ratio> = Vec::new();
    let mut k: usize = 0;
    while k < features.len()
        invariant
            k <= features.len(),
            i < FEATURES,
            all_described(features@),
            out@ =~= column(features@, i as int).take(k as int),
            all_wf(out@),
        decreases features.len() - k,
    {
        let named: Vec<(&'static str, Ratio)> = features[k].named();
        out.push(named[i].1);
        k = k + 1;
    }
    assert(out@ =~= column(features@, i as int));
    out
}

/// Ranks every feature by how well it separates the two sets, best first.
///
/// Read the top row, not the average: an adversary uses the feature that works, and a mean over
/// features would hide it behind the ones that do not.
pub fn separations(a: &[ConnectionFeatures], b: &[ConnectionFeatures]) -> (r: Vec<FeatureSeparation>)
    requires
        all_described(a@),
        all_described(b@),
        2 * (a@.len() * b@.len()) <= u64::MAX,
    ensures
        exists|listed: Seq<FeatureSeparation>|
            lists_separations(a@, b@, listed) && crate::trace::sorting::sorts(listed, r@),
{
    let names: Vec<(&'static str, Ratio)> = if a.len() > 0 {
        a[0].named()
    } else if b.len() > 0 {
        b[0].named()
    } else {
        Vec::new()
    };
    let mut listed: Vec<FeatureSeparation> = Vec::new();
    let mut i: usize = 0;
    while i < names.len()
        invariant
            i <= names.len(),
            listed.len() == i,
            names.len() == 0 || names.len() == FEATURES,
            forall|k: int| 0 <= k < names.len() ==> (#[trigger] names@[k]).0@ == feature_name(k),
            all_described(a@),
            all_described(b@),
            2 * (a@.len() * b@.len()) <= u64::MAX,
            forall|k: int|
                0 <= k < i ==> {
                    &&& (#[trigger] listed@[k]).feature@ == feature_name(k)
                    &&& (listed@[k].separation.num as int, listed@[k].separation.den as int)
                        == separation_of(a@, b@, k)
                },
        decreases names.len() - i,
    {
        let xs: Vec<Ratio> = read_column(a, i);
        let ys: Vec<Ratio> = read_column(b, i);
        let raw: Ratio = auc(xs.as_slice(), ys.as_slice());
        proof {
            lemma_half_wins_bound(xs@, ys@);
        }
        let whole: i128 = raw.den as i128;
        let num: i128 = if 2 * raw.num >= whole {
            raw.num
        } else {
            whole - raw.num
        };
        listed.push(FeatureSeparation { feature: names[i].0, separation: Ratio { num, den: raw.den } });
        i = i + 1;
    }
    let r: Vec<FeatureSeparation> = sort_stably(listed.as_slice());
    assert(lists_separations(a@, b@, listed@));
    r
}

/// A feature that predicts backwards is just as useful to an adversary: swapping the sets does not
/// change a separation. It is never below that of a coin flip, nor above a perfect one.
pub proof fn law_separation_is_symmetric(
    a: Seq<ConnectionFeatures>,
    b: Seq<ConnectionFeatures>,
    i: int,
)
    ensures
        separation_of(a, b, i) == separation_of(b, a, i),
        separation_of(a, b, i).1 <= 2 * separation_of(a, b, i).0,
        separation_of(a, b, i).0 <= separation_of(a, b, i).1,
{
    law_auc_turns_around(column(a, i), column(b, i));
    lemma_half_wins_bound(column(a, i), column(b, i));
}

/// A set cannot be told from itself: every separation is that of a coin flip.
pub proof fn law_a_set_is_not_separated_from_itself(a: Seq<ConnectionFeatures>, i: int)
    ensures
        2 * separation_of(a, a, i).0 == separation_of(a, a, i).1,
{
    law_auc_turns_around(column(a, i), column(a, i));
}

/// The ranking puts the best feature on top: no separation in it is larger than one before it.
pub proof fn law_the_top_row_is_the_best(
    a: Seq<ConnectionFeatures>,
    b: Seq<ConnectionFeatures>,
    listed: Seq<FeatureSeparation>,
    ranked: Seq<FeatureSeparation>,
    i: int,
    j: int,
)
    requires
        lists_separations(a, b, listed),
        crate::trace::sorting::sorts(listed, ranked),
        0 <= i <= j < ranked.len(),
    ensures
        !ranked[i].separation.below(ranked[j].separation),
        ranked[i].separation.den == ranked[j].separation.den,
{
    broadcast use vstd::seq_lib::group_to_multiset_ensures;

    let den = separation_of(a, b, 0).1;
    assert forall|k: int| 0 <= k < ranked.len() implies (#[trigger] ranked[k]).separation.den == den by {
        assert(ranked.contains(ranked[k]));
        assert(ranked.to_multiset().count(ranked[k]) > 0);
        assert(listed.contains(ranked[k]));
        let n = choose|n: int| 0 <= n < listed.len() && listed[n] == ranked[k];
        assert(column(a, n).len() == column(a, 0).len() && column(b, n).len() == column(
            b,
            0,
        ).len());
    }
    assert(ranked[i].key() <= ranked[j].key());
    let (x, y, d) = (ranked[i].separation.num, ranked[j].separation.num, ranked[i].separation.den);
    assert(x * d >= y * d) by (nonlinear_arith)
        requires
            x >= y,
            d >= 0,
    ;
}

/// A quantile of sorted values lies between the smallest and the largest of them.
pub proof fn law_a_quantile_lies_between(sorted: Seq<i64>, qn: int, qd: int)
    requires
        sorted.len() > 0,
        forall|i: int, j: int| 0 <= i <= j < sorted.len() ==> sorted[i] <= sorted[j],
        0 <= qn <= qd,
        qd > 0,
    ensures
        sorted.first() * qd <= quantile_of(sorted, qn, qd) <= sorted.last() * qd,
{
    let n = sorted.len() as int;
    lemma_quantile_at(n, qn, qd);
    let (lo, part) = quantile_at(n, qn, qd);
    let (first, a, last) = (sorted.first() as int, sorted[lo] as int, sorted.last() as int);
    assert(first * qd <= a * qd && a * qd <= last * qd) by (nonlinear_arith)
        requires
            first <= a <= last,
            qd > 0,
    ;
    if part > 0 {
        let b = sorted[lo + 1] as int;
        assert(a * qd <= a * qd + (b - a) * part <= b * qd <= last * qd) by (nonlinear_arith)
            requires
                a <= b <= last,
                0 < part < qd,
        ;
    }
}

/// A metronome has no spread in its gaps: where all gaps are the same, so is every quantile, and
/// their interquartile range is zero.
pub proof fn law_a_metronome_has_no_spread(gaps: Seq<i64>, gap: i64, qn: int, qd: int)
    requires
        gaps.len() > 0,
        forall|i: int| 0 <= i < gaps.len() ==> gaps[i] == gap,
        0 <= qn <= qd,
        qd > 0,
    ensures
        quantile_of(ascending(gaps), qn, qd) == gap * qd,
        quantile_of(ascending(gaps), 3, 4) - quantile_of(ascending(gaps), 1, 4) == 0,
{
    let leq = |x: i64, y: i64| x <= y;
    assert(vstd::relations::total_ordering(leq));
    gaps.lemma_sort_by_ensures(leq);
    assert forall|i: int, j: int| 0 <= i < j < gaps.len() implies #[trigger] leq(gaps[i], gaps[j]) by {}
    vstd::seq_lib::lemma_sorted_unique(gaps, ascending(gaps), leq);
    law_a_quantile_lies_between(gaps, qn, qd);
    law_a_quantile_lies_between(gaps, 1, 4);
    law_a_quantile_lies_between(gaps, 3, 4);
}

/// How many connections a claim rests on. Printed next to every separation so a result from three
/// captures cannot be read as a result from three hundred.
#[derive(Debug, Clone, Copy, PartialEq)]
pub struct Support {
    pub connections_a: usize,
    pub connections_b: usize,
}

impl Support {
    /// Whether one of the two sides rests on fewer than twenty connections.
    pub open spec fn is_thin(self) -> bool {
        self.connections_a < 20 || self.connections_b < 20
    }

    /// Whether there are too few connections for the numbers to mean anything at all.
    ///
    /// Not a power calculation: a tripwire. With a handful of connections per side the best
    /// feature's AUC is dominated by which captures happened to be taken.
    pub fn is_suggestive_only(&self) -> (r: bool)
        ensures
            r == (self.connections_a < 20 || self.connections_b < 20),
            r == self.is_thin(),
    {
        self.connections_a < 20 || self.connections_b < 20
    }
}

/// The handshake is not part of a session's shape: wherever a record that carries no application
/// data stands, the features are derived as if it were not there.
pub proof fn law_the_handshake_leaves_no_mark(
    before: Seq<Record<i64>>,
    record: Record<i64>,
    behind: Seq<Record<i64>>,
)
    requires
        record.ct != crate::trace::records::CT_APPLICATION_DATA,
    ensures
        application(before.push(record) + behind) == application(before + behind),
    decreases behind.len(),
{
    reveal(Seq::filter);
    if behind.len() == 0 {
        assert(before.push(record) + behind =~= before.push(record));
        assert(before + behind =~= before);
        assert(before.push(record).drop_last() =~= before);
    } else {
        law_the_handshake_leaves_no_mark(before, record, behind.drop_last());
        assert((before.push(record) + behind).drop_last() =~= before.push(record)
            + behind.drop_last());
        assert((before + behind).drop_last() =~= before + behind.drop_last());
    }
}

/// Every record goes either up or down.
pub proof fn law_every_record_goes_one_way(records: Seq<Record<i64>>)
    ensures
        going(records, Direction::Up).len() + going(records, Direction::Down).len()
            == records.len(),
    decreases records.len(),
{
    reveal(Seq::filter);
    if records.len() > 0 {
        law_every_record_goes_one_way(records.drop_last());
    }
}

/// The features of a connection come from its application data alone, and are fixed by it: those of
/// all its records and those of its application-data records are the same.
pub proof fn law_features_come_from_application_data(
    records: Seq<Record<i64>>,
    f: ConnectionFeatures,
    g: ConnectionFeatures,
)
    requires
        f.describes(application(records)),
        g.describes(application(application(records))),
    ensures
        application(application(records)) == application(records),
        f == g,
{
    lemma_application_again(records);
}

proof fn lemma_application_again(records: Seq<Record<i64>>)
    ensures
        application(application(records)) == application(records),
    decreases records.len(),
{
    reveal(Seq::filter);
    if records.len() > 0 {
        let before = application(records.drop_last());
        lemma_application_again(records.drop_last());
        if records.last().ct == CT_APPLICATION_DATA {
            assert(before.push(records.last()).drop_last() =~= before);
        }
    }
}

proof fn lemma_feature_names_differ(i: int, j: int)
    requires
        0 <= i < j < FEATURES,
    ensures
        feature_name(i) != feature_name(j),
{
    reveal_strlit("records");
    reveal_strlit("bytes");
    reveal_strlit("duration");
    reveal_strlit("up_down_ratio");
    reveal_strlit("modal_size_share");
    reveal_strlit("distinct_sizes");
    reveal_strlit("median_gap");
    reveal_strlit("gap_iqr");
    reveal_strlit("bytes_per_second");
    assert("records"@.len() == 7);
    assert("bytes"@.len() == 5);
    assert("duration"@.len() == 8);
    assert("up_down_ratio"@.len() == 13);
    assert("modal_size_share"@.len() == 16);
    assert("distinct_sizes"@.len() == 14);
    assert("median_gap"@.len() == 10);
    assert("gap_iqr"@.len() == 7);
    assert("bytes_per_second"@.len() == 16);
    assert("records"@[0] == 'r' && "gap_iqr"@[0] == 'g');
    assert("modal_size_share"@[0] == 'm' && "bytes_per_second"@[0] == 'b');
}

/// Whether a row gives feature `i` with its separation.
pub open spec fn gives_feature(
    a: Seq<ConnectionFeatures>,
    b: Seq<ConnectionFeatures>,
    row: FeatureSeparation,
    i: int,
) -> bool {
    &&& row.feature@ == feature_name(i)
    &&& (row.separation.num as int, row.separation.den as int) == separation_of(a, b, i)
}

/// Whether a row gives one of the features with its separation.
pub open spec fn is_row(
    a: Seq<ConnectionFeatures>,
    b: Seq<ConnectionFeatures>,
    row: FeatureSeparation,
) -> bool {
    exists|i: int| 0 <= i < FEATURES && #[trigger] gives_feature(a, b, row, i)
}

/// Whether some row gives feature `i` with its separation.
pub open spec fn has_row(
    a: Seq<ConnectionFeatures>,
    b: Seq<ConnectionFeatures>,
    rows: Seq<FeatureSeparation>,
    i: int,
) -> bool {
    exists|j: int| 0 <= j < rows.len() && gives_feature(a, b, #[trigger] rows[j], i)
}

/// The ranking holds every feature once, with its separation. Each separation lies between that of a
/// coin flip and a perfect one, and is that of a coin flip where one of the sets is empty.
pub proof fn law_the_ranking_holds_every_feature_once(
    a: Seq<ConnectionFeatures>,
    b: Seq<ConnectionFeatures>,
    listed: Seq<FeatureSeparation>,
    ranked: Seq<FeatureSeparation>,
)
    requires
        lists_separations(a, b, listed),
        crate::trace::sorting::sorts(listed, ranked),
        a.len() > 0 || b.len() > 0,
    ensures
        ranked.len() == FEATURES,
        forall|i: int| 0 <= i < FEATURES ==> #[trigger] has_row(a, b, ranked, i),
        forall|j: int| 0 <= j < ranked.len() ==> is_row(a, b, #[trigger] ranked[j]),
        forall|j: int, k: int|
            0 <= j < k < ranked.len() ==> (#[trigger] ranked[j]).feature@ != (
            #[trigger] ranked[k]).feature@,
        forall|j: int|
            0 <= j < ranked.len() ==> {
                let r = (#[trigger] ranked[j]).separation;
                &&& 0 < r.den <= 2 * r.num
                &&& r.num <= r.den
                &&& a.len() == 0 || b.len() == 0 ==> 2 * r.num == r.den
            },
{
    broadcast use vstd::seq_lib::group_to_multiset_ensures;

    assert forall|i: int| 0 <= i < FEATURES implies #[trigger] has_row(a, b, ranked, i) by {
        assert(listed.contains(listed[i]));
        assert(listed.to_multiset().count(listed[i]) > 0);
        assert(ranked.contains(listed[i]));
        let j = choose|j: int| 0 <= j < ranked.len() && ranked[j] == listed[i];
        assert(gives_feature(a, b, ranked[j], i));
    }
    assert forall|j: int| 0 <= j < ranked.len() implies is_row(a, b, #[trigger] ranked[j])
        && listed.contains(ranked[j]) by {
        assert(ranked.contains(ranked[j]));
        assert(ranked.to_multiset().count(ranked[j]) > 0);
        assert(listed.contains(ranked[j]));
        let i = choose|i: int| 0 <= i < listed.len() && listed[i] == ranked[j];
        assert(gives_feature(a, b, ranked[j], i));
    }
    assert(listed.no_duplicates()) by {
        assert forall|i: int, j: int| 0 <= i < j < listed.len() implies listed[i] != listed[j] by {
            lemma_feature_names_differ(i, j);
        }
    }
    listed.lemma_multiset_has_no_duplicates();
    ranked.lemma_multiset_has_no_duplicates_conv();
    assert forall|j: int, k: int| 0 <= j < k < ranked.len() implies (#[trigger] ranked[j]).feature@
        != (#[trigger] ranked[k]).feature@ by {
        assert(listed.contains(ranked[j]) && listed.contains(ranked[k]));
        let x = choose|i: int| 0 <= i < listed.len() && listed[i] == ranked[j];
        let y = choose|i: int| 0 <= i < listed.len() && listed[i] == ranked[k];
        if x < y {
            lemma_feature_names_differ(x, y);
        } else if y < x {
            lemma_feature_names_differ(y, x);
        }
    }
    assert forall|j: int| 0 <= j < ranked.len() implies ({
        let r = (#[trigger] ranked[j]).separation;
        &&& 0 < r.den <= 2 * r.num
        &&& r.num <= r.den
        &&& a.len() == 0 || b.len() == 0 ==> 2 * r.num == r.den
    }) by {
        assert(is_row(a, b, ranked[j]));
        let i = choose|i: int| 0 <= i < FEATURES && #[trigger] gives_feature(a, b, ranked[j], i);
        law_separation_is_symmetric(a, b, i);
        let (xs, ys) = (column(a, i), column(b, i));
        if a.len() > 0 && b.len() > 0 {
            assert(xs.len() * ys.len() > 0) by (nonlinear_arith)
                requires
                    xs.len() > 0,
                    ys.len() > 0,
            ;
        }
    }
}

/// How many values are no larger than `v`.
pub open spec fn no_larger(values: Seq<i64>, v: i64) -> nat {
    values.filter(|x: i64| x <= v).len()
}

/// How many values are no smaller than `v`.
pub open spec fn no_smaller(values: Seq<i64>, v: i64) -> nat {
    values.filter(|x: i64| x >= v).len()
}

/// Whether `v` is the value that `k` others come before where the values stand in order: one of
/// them, with more than `k` that are no larger, itself among those, and as many that are no
/// smaller as are left.
pub open spec fn has_rank(values: Seq<i64>, v: i64, k: int) -> bool {
    &&& values.contains(v)
    &&& no_larger(values, v) >= k + 1
    &&& no_smaller(values, v) >= values.len() - k
}

pub(crate) proof fn lemma_ascending(values: Seq<i64>)
    ensures
        ascending(values).len() == values.len(),
        ascending(values).to_multiset() == values.to_multiset(),
        forall|i: int, j: int|
            0 <= i <= j < values.len() ==> ascending(values)[i] <= ascending(values)[j],
{
    broadcast use vstd::seq_lib::group_to_multiset_ensures;

    let leq = |x: i64, y: i64| x <= y;
    assert(vstd::relations::total_ordering(leq));
    values.lemma_sort_by_ensures(leq);
    let sorted = ascending(values);
    assert(sorted.to_multiset().len() == sorted.len());
    assert(values.to_multiset().len() == values.len());
    assert forall|i: int, j: int| 0 <= i <= j < values.len() implies sorted[i] <= sorted[j] by {
        if i < j {
            assert(leq(sorted[i], sorted[j]));
        }
    }
}

/// The value at a place of the sorted list has that rank in the list as it came.
proof fn lemma_rank(values: Seq<i64>, k: int)
    requires
        0 <= k < values.len(),
    ensures
        has_rank(values, ascending(values)[k], k),
{
    broadcast use vstd::seq_lib::group_to_multiset_ensures;

    lemma_ascending(values);
    let sorted = ascending(values);
    let v = sorted[k];
    let (lower, upper) = (|x: i64| x <= v, |x: i64| x >= v);
    crate::trace::sorting::lemma_a_stretch_counts(sorted, lower, 0, k + 1);
    crate::trace::sorting::lemma_a_stretch_counts(sorted, upper, k, sorted.len() as int);
    crate::trace::sorting::lemma_same_count(sorted, values, lower);
    crate::trace::sorting::lemma_same_count(sorted, values, upper);
    assert(sorted.contains(v));
    assert(sorted.to_multiset().count(v) > 0);
    assert(values.contains(v));
}

/// Two lists that are reorderings of each other stand in the same order once sorted.
pub(crate) proof fn lemma_order_does_not_matter(a: Seq<i64>, b: Seq<i64>)
    requires
        a.to_multiset() == b.to_multiset(),
    ensures
        ascending(a) == ascending(b),
{
    let leq = |x: i64, y: i64| x <= y;
    assert(vstd::relations::total_ordering(leq));
    a.lemma_sort_by_ensures(leq);
    b.lemma_sort_by_ensures(leq);
    vstd::seq_lib::lemma_sorted_unique(ascending(a), ascending(b), leq);
}

/// Of the sorted values a higher quantile is never the smaller one.
pub(crate) proof fn lemma_quantiles_rise(sorted: Seq<i64>, low: int, high: int, qd: int)
    requires
        sorted.len() > 0,
        forall|i: int, j: int| 0 <= i <= j < sorted.len() ==> sorted[i] <= sorted[j],
        0 <= low <= high <= qd,
        qd > 0,
    ensures
        quantile_of(sorted, low, qd) <= quantile_of(sorted, high, qd),
{
    let n = sorted.len() as int;
    lemma_quantile_at(n, low, qd);
    lemma_quantile_at(n, high, qd);
    let ((i, p), (j, q)) = (quantile_at(n, low, qd), quantile_at(n, high, qd));
    assert(low * (n - 1) <= high * (n - 1)) by (nonlinear_arith)
        requires
            low <= high,
            n > 0,
    ;
    vstd::arithmetic::div_mod::lemma_fundamental_div_mod(low * (n - 1), qd);
    vstd::arithmetic::div_mod::lemma_fundamental_div_mod(high * (n - 1), qd);
    vstd::arithmetic::div_mod::lemma_div_is_ordered(low * (n - 1), high * (n - 1), qd);
    let a = sorted[i] as int;
    let c = sorted[j] as int;
    let b = if p > 0 {
        sorted[i + 1] as int
    } else {
        a
    };
    let d = if q > 0 {
        sorted[j + 1] as int
    } else {
        c
    };
    assert(quantile_of(sorted, low, qd) == a * qd + (b - a) * p) by {
        assert((b - a) * 0 == 0);
    }
    assert(quantile_of(sorted, high, qd) == c * qd + (d - c) * q) by {
        assert((d - c) * 0 == 0);
    }
    assert(a <= b && c <= d);
    if i == j {
        assert(p <= q);
        if p > 0 {
            assert(b == d);
        }
        assert((b - a) * p <= (d - c) * q) by (nonlinear_arith)
            requires
                a == c,
                p == 0 || b == d,
                c <= d,
                0 <= p <= q,
        ;
    } else {
        assert(b <= c);
        assert(a * qd + (b - a) * p <= c * qd + (d - c) * q) by (nonlinear_arith)
            requires
                a <= b <= c <= d,
                0 <= p < qd,
                0 <= q,
        ;
    }
}

/// A quantile, by the ranks of the two values it lies between.
pub(crate) proof fn lemma_quantile_by_rank(values: Seq<i64>, qn: int, qd: int) -> (r: (i64, i64))
    requires
        values.len() > 0,
        0 <= qn <= qd,
        qd > 0,
    ensures
        ({
            let n = values.len() as int;
            let (k, part) = ((qn * (n - 1)) / qd, (qn * (n - 1)) % qd);
            &&& 0 <= k < n
            &&& has_rank(values, r.0, k)
            &&& part > 0 ==> k + 1 < n && has_rank(values, r.1, k + 1)
            &&& part == 0 ==> r.1 == r.0
            &&& r.0 <= r.1
            &&& quantile_of(ascending(values), qn, qd) == r.0 * qd + (r.1 - r.0) * part
        }),
{
    let n = values.len() as int;
    lemma_quantile_at(n, qn, qd);
    lemma_ascending(values);
    let (k, part) = quantile_at(n, qn, qd);
    let sorted = ascending(values);
    lemma_rank(values, k);
    if part > 0 {
        lemma_rank(values, k + 1);
        (sorted[k], sorted[k + 1])
    } else {
        assert((sorted[k] - sorted[k]) * part == 0);
        (sorted[k], sorted[k])
    }
}

/// Whether `gaps` are the times from each record to the next.
pub open spec fn between(app: Seq<Record<i64>>, gaps: Seq<i64>) -> bool {
    &&& app.len() == gaps.len() + 1
    &&& forall|i: int| 0 <= i < gaps.len() ==> #[trigger] gaps[i] == app[i + 1].t - app[i].t
}

/// The median gap lies in the middle. Of an odd number of gaps it is one of them, with as many
/// that are no larger as there are no smaller, at least half of all gaps each. Of an even number
/// it is the mean of the two in the middle: at least half of the gaps are no larger than the lower
/// one, and at least half no smaller than the upper one.
pub proof fn law_the_median_gap_lies_in_the_middle(
    f: ConnectionFeatures,
    app: Seq<Record<i64>>,
    gaps: Seq<i64>,
)
    requires
        f.describes(app),
        between(app, gaps),
        gaps.len() > 0,
    ensures
        f.median_gap.den == 2_000_000,
        gaps.len() % 2 == 1 ==> exists|v: i64|
            #![trigger gaps.contains(v)]
            gaps.contains(v) && f.median_gap.num == 2 * v && 2 * no_larger(gaps, v) >= gaps.len()
                && 2 * no_smaller(gaps, v) >= gaps.len(),
        gaps.len() % 2 == 0 ==> exists|a: i64, b: i64|
            #![trigger gaps.contains(a), gaps.contains(b)]
            gaps.contains(a) && gaps.contains(b) && a <= b && f.median_gap.num == a + b && 2
                * no_larger(gaps, a) >= gaps.len() && 2 * no_smaller(gaps, b) >= gaps.len()
                && has_rank(gaps, a, gaps.len() / 2 - 1) && has_rank(
                gaps,
                b,
                gaps.len() as int / 2,
            ),
{
    assert(gaps_of(app) =~= gaps);
    let (a, b) = lemma_quantile_by_rank(gaps, 1, 2);
    let n = gaps.len() as int;
    assert(1 * (n - 1) == n - 1);
    if n % 2 == 1 {
        assert((n - 1) % 2 == 0);
        assert((b - a) * 0 == 0);
        assert(gaps.contains(a));
    } else {
        assert((n - 1) % 2 == 1);
        assert((b - a) * 1 == b - a);
        assert((n - 1) / 2 == n / 2 - 1);
        assert(gaps.contains(a) && gaps.contains(b));
    }
}

/// The interquartile range of the gaps is never negative, and spans the middle half of them: from
/// the value a quarter of the way through the gaps in order to the one at three quarters, each
/// that of the gap there or, between two gaps, the part of the way from one to the other that the
/// quarter falls at.
pub proof fn law_the_spread_spans_the_middle_half(
    f: ConnectionFeatures,
    app: Seq<Record<i64>>,
    gaps: Seq<i64>,
)
    requires
        f.describes(app),
        between(app, gaps),
        gaps.len() > 0,
    ensures
        f.gap_iqr.den == 4_000_000,
        f.gap_iqr.num >= 0,
        exists|a: i64, b: i64, c: i64, d: i64|
            #![trigger gaps.contains(a), gaps.contains(b), gaps.contains(c), gaps.contains(d)]
            {
                let n = gaps.len() as int;
                let (k, l) = ((n - 1) / 4, (3 * (n - 1)) / 4);
                let (p, q) = ((n - 1) % 4, (3 * (n - 1)) % 4);
                &&& gaps.contains(a) && gaps.contains(b) && gaps.contains(c) && gaps.contains(d)
                &&& has_rank(gaps, a, k)
                &&& has_rank(gaps, b, if p > 0 { k + 1 } else { k })
                &&& has_rank(gaps, c, l)
                &&& has_rank(gaps, d, if q > 0 { l + 1 } else { l })
                &&& f.gap_iqr.num == (4 * c + (d - c) * q) - (4 * a + (b - a) * p)
            },
{
    assert(gaps_of(app) =~= gaps);
    let n = gaps.len() as int;
    lemma_ascending(gaps);
    lemma_quantiles_rise(ascending(gaps), 1, 3, 4);
    let (a, b) = lemma_quantile_by_rank(gaps, 1, 4);
    let (c, d) = lemma_quantile_by_rank(gaps, 3, 4);
    assert(1 * (n - 1) == n - 1);
    assert(gaps.contains(a) && gaps.contains(b) && gaps.contains(c) && gaps.contains(d));
}

/// The order of the gaps does not matter: two connections whose gaps are a reordering of each other
/// have the same median gap and the same spread.
pub proof fn law_the_order_of_gaps_does_not_matter(
    f: ConnectionFeatures,
    app: Seq<Record<i64>>,
    gaps: Seq<i64>,
    g: ConnectionFeatures,
    other: Seq<Record<i64>>,
    others: Seq<i64>,
)
    requires
        f.describes(app),
        between(app, gaps),
        g.describes(other),
        between(other, others),
        gaps.to_multiset() == others.to_multiset(),
    ensures
        f.median_gap == g.median_gap,
        f.gap_iqr == g.gap_iqr,
{
    assert(gaps_of(app) =~= gaps);
    assert(gaps_of(other) =~= others);
    lemma_order_does_not_matter(gaps, others);
}

proof fn lemma_smallest(sizes: Seq<usize>, least: usize)
    requires
        sizes.contains(least),
        forall|i: int| 0 <= i < sizes.len() ==> least <= #[trigger] sizes[i],
    ensures
        sizes.map_values(|n: usize| n as int).min() == least,
{
    let numbers = sizes.map_values(|n: usize| n as int);
    numbers.min_ensures();
    let i = choose|i: int| 0 <= i < sizes.len() && sizes[i] == least;
    assert(numbers[i] == least);
    assert(numbers.contains(numbers.min()));
    let j = choose|j: int| 0 <= j < numbers.len() && numbers[j] == numbers.min();
    assert(least <= sizes[j]);
}

proof fn lemma_smallest_of(sizes: Seq<usize>) -> (least: usize)
    requires
        sizes.len() > 0,
    ensures
        sizes.contains(least),
        forall|i: int| 0 <= i < sizes.len() ==> least <= #[trigger] sizes[i],
    decreases sizes.len(),
{
    let last = sizes.last();
    assert(sizes[sizes.len() - 1] == last);
    if sizes.len() == 1 {
        last
    } else {
        let front = sizes.drop_last();
        let least = lemma_smallest_of(front);
        let i = choose|i: int| 0 <= i < front.len() && front[i] == least;
        assert(sizes[i] == least);
        assert forall|k: int| 0 <= k < front.len() implies least <= #[trigger] sizes[k] by {
            assert(front[k] == sizes[k]);
        }
        if last < least {
            last
        } else {
            least
        }
    }
}

/// One size more: alone at the bottom, one more at the bottom, or above it.
proof fn lemma_smallest_count_push(sizes: Seq<usize>, new: usize)
    requires
        sizes.len() > 0,
    ensures
        (forall|i: int| 0 <= i < sizes.len() ==> new < #[trigger] sizes[i]) ==> smallest_count(
            sizes.push(new),
        ) == 1,
        (exists|i: int| 0 <= i < sizes.len() && #[trigger] sizes[i] < new) ==> smallest_count(
            sizes.push(new),
        ) == smallest_count(sizes),
        sizes.contains(new) && (forall|i: int|
            0 <= i < sizes.len() ==> new <= #[trigger] sizes[i]) ==> smallest_count(
            sizes.push(new),
        ) == smallest_count(sizes) + 1,
{
    let all = sizes.push(new);
    let old_least = lemma_smallest_of(sizes);
    lemma_smallest(sizes, old_least);
    assert forall|i: int| 0 <= i < sizes.len() implies #[trigger] all[i] == sizes[i] by {}
    let k = choose|k: int| 0 <= k < sizes.len() && sizes[k] == old_least;
    let least = if new < old_least {
        new
    } else {
        old_least
    };
    assert(all[sizes.len() as int] == new && all[k] == old_least);
    assert(all.contains(least));
    assert forall|i: int| 0 <= i < all.len() implies least <= #[trigger] all[i] by {
        if i < sizes.len() {
            assert(old_least <= sizes[i]);
        }
    }
    lemma_smallest(all, least);
    let value = sizes.map_values(|n: usize| n as int).min();
    let lower = all.map_values(|n: usize| n as int).min();
    let at_least = |n: usize| n == value;
    let at_lower = |n: usize| n == lower;
    assert(smallest_count(sizes) == sizes.filter(at_least).len());
    assert(smallest_count(all) == all.filter(at_lower).len());
    crate::trace::sorting::lemma_count_push(sizes, new, at_lower);
    if new < old_least {
        assert forall|i: int| 0 <= i < sizes.len() implies !at_lower(#[trigger] sizes[i]) by {}
        crate::trace::sorting::lemma_none_counts(sizes, at_lower);
    } else {
        assert(at_least =~= at_lower);
    }
}

/// What one more record at the end of a connection changes: one record and its bytes more, up or
/// down by the way it went; the duration reaches to it; its size is a new one exactly if no record
/// before it had it; and it is alone at the smallest size, one more of it, or no matter for it.
pub proof fn law_one_record_more(
    f: ConnectionFeatures,
    g: ConnectionFeatures,
    app: Seq<Record<i64>>,
    r: Record<i64>,
)
    requires
        app.len() > 0,
        f.describes(app),
        g.describes(app.push(r)),
    ensures
        g.records == f.records + 1,
        g.bytes == f.bytes + r.len,
        g.duration == r.t - app[0].t,
        r.dir == Direction::Up ==> g.up_records == f.up_records + 1 && g.down_records
            == f.down_records,
        r.dir == Direction::Down ==> g.up_records == f.up_records && g.down_records
            == f.down_records + 1,
        (exists|i: int| 0 <= i < app.len() && (#[trigger] app[i]).len == r.len)
            ==> g.distinct_sizes == f.distinct_sizes,
        (forall|i: int| 0 <= i < app.len() ==> (#[trigger] app[i]).len != r.len)
            ==> g.distinct_sizes == f.distinct_sizes + 1,
        g.modal_size_share.den == g.records,
        (forall|i: int| 0 <= i < app.len() ==> r.len < (#[trigger] app[i]).len)
            ==> g.modal_size_share.num == 1,
        (exists|i: int| 0 <= i < app.len() && (#[trigger] app[i]).len < r.len)
            ==> g.modal_size_share.num == f.modal_size_share.num,
        (forall|i: int| 0 <= i < app.len() ==> r.len <= (#[trigger] app[i]).len) && (exists|
            i: int,
        | 0 <= i < app.len() && (#[trigger] app[i]).len == r.len) ==> g.modal_size_share.num
            == f.modal_size_share.num + 1,
{
    let (sizes, all) = (sizes_of(app), sizes_of(app.push(r)));
    assert(all =~= sizes.push(r.len));
    assert(all.drop_last() =~= sizes);
    assert forall|i: int| 0 <= i < app.len() implies #[trigger] sizes[i] == app[i].len by {}
    reveal(Seq::filter);
    assert(app.push(r).drop_last() =~= app);
    assert(all.to_set() =~= sizes.to_set().insert(r.len)) by {
        assert forall|n: usize| all.contains(n) <==> sizes.contains(n) || n == r.len by {
            if sizes.contains(n) {
                let i = choose|i: int| 0 <= i < sizes.len() && sizes[i] == n;
                assert(all[i] == n);
            }
            assert(all[sizes.len() as int] == r.len);
        }
    }
    sizes.lemma_cardinality_of_set();
    if exists|i: int| 0 <= i < app.len() && (#[trigger] app[i]).len == r.len {
        let i = choose|i: int| 0 <= i < app.len() && (#[trigger] app[i]).len == r.len;
        assert(sizes[i] == r.len);
        assert(sizes.contains(r.len));
        assert(sizes.to_set().insert(r.len) =~= sizes.to_set());
    }
    if forall|i: int| 0 <= i < app.len() ==> (#[trigger] app[i]).len != r.len {
        assert(!sizes.contains(r.len));
        assert(!sizes.to_set().contains(r.len));
    }
    lemma_smallest_count_push(sizes, r.len);
    if exists|i: int| 0 <= i < app.len() && (#[trigger] app[i]).len < r.len {
        let i = choose|i: int| 0 <= i < app.len() && (#[trigger] app[i]).len < r.len;
        assert(sizes[i] < r.len);
    }
}

/// Where the counting starts: one record is one record of one size, the smallest, and has no
/// duration.
pub proof fn law_of_one_record(f: ConnectionFeatures, r: Record<i64>)
    requires
        f.describes(seq![r]),
    ensures
        f.records == 1,
        f.bytes == r.len,
        f.duration == 0,
        r.dir == Direction::Up ==> f.up_records == 1 && f.down_records == 0,
        r.dir == Direction::Down ==> f.up_records == 0 && f.down_records == 1,
        f.distinct_sizes == 1,
        f.modal_size_share.num == 1,
        f.modal_size_share.den == 1,
{
    let sizes = sizes_of(seq![r]);
    assert(sizes =~= seq![r.len]);
    assert(sizes.drop_last() =~= Seq::empty());
    assert(sum_of(sizes.drop_last()) == 0);
    reveal_with_fuel(Seq::filter, 2);
    assert(seq![r].drop_last() =~= Seq::empty());
    assert(sizes[0] == r.len);
    assert(sizes.contains(r.len));
    assert(sizes.to_set() =~= Set::empty().insert(r.len));
    lemma_smallest(sizes, r.len);
}

/// The rate is the bytes over the seconds from the first record to the last, and nothing where
/// those are at the same time or the wrong way round.
pub proof fn law_the_rate_is_bytes_over_seconds(f: ConnectionFeatures, app: Seq<Record<i64>>)
    requires
        f.describes(app),
        app.len() > 0,
    ensures
        app[app.len() - 1].t > app[0].t ==> f.bytes_per_second.num == f.bytes * 1_000_000
            && f.bytes_per_second.den == app[app.len() - 1].t - app[0].t,
        app[app.len() - 1].t <= app[0].t ==> f.bytes_per_second.num == 0 && f.bytes_per_second.den
            == 1,
{
}

/// Every feature stands under its own name; the up/down ratio is over one where nothing went down,
/// and times are in seconds.
pub proof fn law_every_feature_is_under_its_name(f: ConnectionFeatures)
    requires
        f.down_records <= u64::MAX,
    ensures
        feature_name(0) == "records"@ && f.feature(0).num == f.records && f.feature(0).den == 1,
        feature_name(1) == "bytes"@ && f.feature(1).num == f.bytes && f.feature(1).den == 1,
        feature_name(2) == "duration"@ && f.feature(2).num == f.duration && f.feature(2).den
            == 1_000_000,
        feature_name(3) == "up_down_ratio"@ && f.feature(3).num == f.up_records && f.feature(3).den
            == if f.down_records > 0 {
            f.down_records as int
        } else {
            1
        },
        feature_name(4) == "modal_size_share"@ && f.feature(4) == f.modal_size_share,
        feature_name(5) == "distinct_sizes"@ && f.feature(5).num == f.distinct_sizes && f.feature(
            5,
        ).den == 1,
        feature_name(6) == "median_gap"@ && f.feature(6) == f.median_gap,
        feature_name(7) == "gap_iqr"@ && f.feature(7) == f.gap_iqr,
        feature_name(8) == "bytes_per_second"@ && f.feature(8) == f.bytes_per_second,
{
}

/// One pair of values: won by the larger one, a tie counts half.
pub proof fn law_a_pair_is_won_by_the_larger(x: Ratio, y: Ratio)
    ensures
        auc_of(seq![x], seq![y]).1 == 2,
        x.num * y.den > y.num * x.den ==> auc_of(seq![x], seq![y]).0 == 2,
        x.num * y.den == y.num * x.den ==> auc_of(seq![x], seq![y]).0 == 1,
        x.num * y.den < y.num * x.den ==> auc_of(seq![x], seq![y]).0 == 0,
{
    let (xs, ys) = (seq![x], seq![y]);
    assert(xs.drop_last() =~= Seq::empty() && ys.drop_last() =~= Seq::empty());
    reveal_with_fuel(points_against, 2);
    reveal_with_fuel(half_wins, 2);
    assert(xs.len() * ys.len() == 1) by (nonlinear_arith)
        requires
            xs.len() == 1,
            ys.len() == 1,
    ;
}

/// Every value of one group meets every value of the other, once: one value more on either side
/// adds its own pairs, and all pairs are counted.
pub proof fn law_every_pair_counts_once(xs: Seq<Ratio>, ys: Seq<Ratio>, x: Ratio)
    requires
        xs.len() > 0,
        ys.len() > 0,
    ensures
        auc_of(xs, ys).1 == 2 * (xs.len() * ys.len()),
        auc_of(xs.push(x), ys).0 == auc_of(xs, ys).0 + auc_of(seq![x], ys).0,
        auc_of(ys, xs.push(x)).0 == auc_of(ys, xs).0 + auc_of(ys, seq![x]).0,
        auc_of(Seq::empty(), ys) == (1int, 2int),
        auc_of(xs, Seq::empty()) == (1int, 2int),
{
    assert(xs.push(x).drop_last() =~= xs);
    assert(seq![x].drop_last() =~= Seq::empty());
    reveal_with_fuel(half_wins, 2);
    law_auc_turns_around(xs, ys);
    law_auc_turns_around(xs.push(x), ys);
    law_auc_turns_around(seq![x], ys);
    assert((xs.len() + 1) * ys.len() == xs.len() * ys.len() + 1 * ys.len()) by (nonlinear_arith);
    assert(xs.push(x).len() * ys.len() == (xs.len() + 1) * ys.len());
    assert(seq![x].len() * ys.len() == 1 * ys.len());
}

/// A separation is an AUC or what it lacks to one, whichever is more: never below one half, never
/// above one.
pub proof fn law_a_separation_is_the_better_half(
    a: Seq<ConnectionFeatures>,
    b: Seq<ConnectionFeatures>,
    i: int,
)
    ensures
        ({
            let auc = auc_of(column(a, i), column(b, i));
            let s = separation_of(a, b, i);
            &&& s.1 == auc.1
            &&& s.0 == auc.0 || s.0 == auc.1 - auc.0
            &&& s.0 >= auc.0 && s.0 >= auc.1 - auc.0
            &&& s.1 <= 2 * s.0
            &&& s.0 <= s.1
        }),
        column(a, i).len() == a.len(),
        forall|k: int| 0 <= k < a.len() ==> #[trigger] column(a, i)[k] == a[k].feature(i),
{
    lemma_half_wins_bound(column(a, i), column(b, i));
}

/// What counts as application data: the records of content type 23, in their order, and none else.
pub proof fn law_application_data_is_type_23(records: Seq<Record<i64>>, r: Record<i64>)
    ensures
        application(Seq::empty()) == Seq::<Record<i64>>::empty(),
        r.ct == 23 ==> application(records.push(r)) == application(records).push(r),
        r.ct != 23 ==> application(records.push(r)) == application(records),
{
    reveal(Seq::filter);
    assert(records.push(r).drop_last() =~= records);
}

/// Features that separate equally well are listed in the order of the feature vector.
pub proof fn law_equal_separations_keep_the_order_of_features(
    a: Seq<ConnectionFeatures>,
    b: Seq<ConnectionFeatures>,
    listed: Seq<FeatureSeparation>,
    ranked: Seq<FeatureSeparation>,
    i: int,
    j: int,
)
    requires
        lists_separations(a, b, listed),
        crate::trace::sorting::sorts(listed, ranked),
        0 <= i < j < ranked.len(),
        ranked[i].separation.num == ranked[j].separation.num,
    ensures
        exists|p: int, q: int|
            0 <= p < q < 9 && ranked[i].feature@ == #[trigger] feature_name(p)
                && ranked[j].feature@ == #[trigger] feature_name(q),
{
    crate::trace::sorting::law_sorting_keeps_the_order_of_equal_keys(listed, ranked, i, j);
    let (p, q) = choose|p: int, q: int|
        #![trigger listed[p], listed[q]]
        0 <= p < q < listed.len() && listed[p] == ranked[i] && listed[q] == ranked[j];
    assert(listed[p].feature@ == feature_name(p) && listed[q].feature@ == feature_name(q));
}

/// Twenty connections on each side are enough and nineteen on one are not, however many the other
/// side has; and with more connections a claim never rests on less.
pub proof fn law_both_sides_need_twenty_connections(s: Support, more: Support)
    requires
        s.connections_a <= more.connections_a,
        s.connections_b <= more.connections_b,
    ensures
        s.connections_a >= 20 && s.connections_b >= 20 ==> !s.is_thin(),
        s.connections_a <= 19 || s.connections_b <= 19 ==> s.is_thin(),
        more.is_thin() ==> s.is_thin(),
{
}

}
