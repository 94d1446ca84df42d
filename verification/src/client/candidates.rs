//! Which methods to probe, going by how they fared on this network before.

use crate::client::method::{MethodId, MethodSet, NetworkFingerprint};
use crate::clock::{Duration, SystemTime};
use vstd::prelude::*;

verus! {

/// Fully parameterizable VEIL configuration.
#[derive(Debug, Clone, Copy)]
pub struct VeilConfig {
    /// How many obfuscators to probe in parallel.
    pub top_k_probes: usize,
    /// Delay between probe starts (happy-eyeballs stagger).
    pub inter_probe_delay: Duration,
    /// Hard timeout per probe.
    pub probe_timeout: Duration,
    /// Transport failures in Degraded before rotation.
    pub degraded_threshold: u8,
    /// Cooldown duration after all probes fail.
    pub cooldown_duration: Duration,
    /// TTL for permanently_blocked entries.
    pub block_ttl: Duration,
    /// Max fingerprints in the persistent scores.
    pub max_fingerprints: usize,
}

impl Default for VeilConfig {
    fn default() -> (r: Self)
        ensures
            r.top_k_probes == 2,
            r.inter_probe_delay.nanos == 150_000_000,
            r.probe_timeout.nanos == 8_000_000_000,
            r.degraded_threshold == 2,
            r.cooldown_duration.nanos == 30_000_000_000,
            r.block_ttl.nanos == 7 * 24 * 3_600_000_000_000,
            r.max_fingerprints == 50,
    {
        VeilConfig {
            top_k_probes: 2,
            inter_probe_delay: Duration::from_millis(150),
            probe_timeout: Duration::from_secs(8),
            degraded_threshold: 2,
            cooldown_duration: Duration::from_secs(30),
            block_ttl: Duration::from_secs(604_800),  // 7 days
            max_fingerprints: 50,
        }
    }
}

impl VeilConfig {
    /// Config that probes sequentially: one candidate at a time, all else by default.
    pub fn legacy() -> (r: Self)
        ensures
            r.top_k_probes == 1,
            r.inter_probe_delay.nanos == 150_000_000,
            r.probe_timeout.nanos == 8_000_000_000,
            r.degraded_threshold == 2,
            r.cooldown_duration.nanos == 30_000_000_000,
            r.block_ttl.nanos == 7 * 24 * 3_600_000_000_000,
            r.max_fingerprints == 50,
    {
        let mut r: VeilConfig = VeilConfig::default();
        r.top_k_probes = 1;
        r
    }
}

/// How a method fared on a network.
#[derive(Debug, Clone, Copy, PartialEq, Eq, Structural)]
pub struct ScoreEntry {
    pub successes: u32,
    pub failures: u32,
    pub last_success_at: Option<SystemTime>,
    pub last_failure_at: Option<SystemTime>,
    pub median_latency_ms: u32,
    pub blocked_at: Option<SystemTime>,
    pub consecutive_failures: u8,
}

impl Default for ScoreEntry {
    fn default() -> (r: Self)
        ensures
            r == (ScoreEntry {
                successes: 0,
                failures: 0,
                last_success_at: None,
                last_failure_at: None,
                median_latency_ms: 0,
                blocked_at: None,
                consecutive_failures: 0,
            }),
    {
        ScoreEntry {
            successes: 0,
            failures: 0,
            last_success_at: None,
            last_failure_at: None,
            median_latency_ms: 0,
            blocked_at: None,
            consecutive_failures: 0,
        }
    }
}

/// Trait for accessing scores from the FSM (decoupled from their storage).
pub trait ScoreLookup {
    /// What is known of a method on a network; nothing, where an implementation says no more.
    open spec fn entry(&self, fingerprint: Seq<u8>, method: MethodId) -> Option<ScoreEntry> {
        None
    }

    /// Whether a method counts as permanently blocked on a network; it does not, where an
    /// implementation says no more.
    open spec fn blocked(
        &self,
        fingerprint: Seq<u8>,
        method: MethodId,
        block_ttl: Duration,
        now: SystemTime,
    ) -> bool {
        false
    }

    /// Get score for a (fingerprint, method) pair. Returns None if no data.
    fn get(&self, fingerprint: &NetworkFingerprint, method: MethodId) -> (r: Option<ScoreEntry>)
        ensures
            r == self.entry(fingerprint@, method),
    ;

    /// Check if a method is permanently blocked on this network.
    fn is_permanently_blocked(
        &self,
        fingerprint: &NetworkFingerprint,
        method: MethodId,
        block_ttl: Duration,
        now: SystemTime,
    ) -> (r: bool)
        ensures
            r == self.blocked(fingerprint@, method, block_ttl, now),
    ;
}

/// How finely a score is counted: this many parts to a point, so that each nanosecond of the
/// fifty-five minutes over which a failure fades is a whole number of parts.
pub const POINT: i128 = 3_300_000_000_000;

/// Five minutes, in nanoseconds.
pub const FIVE_MINUTES: u128 = 300_000_000_000;

/// One hour, in nanoseconds.
pub const ONE_HOUR: u128 = 3_600_000_000_000;

/// A score: `num / den` parts of a point.
#[derive(Debug, Clone, Copy)]
pub struct Score {
    pub num: i128,
    pub den: i128,
}

impl Score {
    /// Whether this score is at least as high as another.
    pub open spec fn at_least(self, other: Score) -> bool {
        self.num * other.den >= other.num * self.den
    }

    /// What holds of every score.
    pub open spec fn wf(self) -> bool {
        &&& 0 < self.den <= 0x1_ffff_ffff
        &&& -0x100_0000_0000_0000_0000_0000 <= self.num <= 0x100_0000_0000_0000_0000_0000
    }

    /// Whether this score is at least as high as another.
    fn is_at_least(&self, other: &Score) -> (r: bool)
        requires
            self.wf(),
            other.wf(),
        ensures
            r == self.at_least(*other),
    {
        proof {
            lemma_score_product(self.num as int, other.den as int);
            lemma_score_product(other.num as int, self.den as int);
        }
        self.num * other.den >= other.num * self.den
    }
}

proof fn lemma_score_product(num: int, den: int)
    requires
        -0x100_0000_0000_0000_0000_0000 <= num <= 0x100_0000_0000_0000_0000_0000,
        0 < den <= 0x1_ffff_ffff,
    ensures
        i128::MIN <= num * den <= i128::MAX,
{
    let top = 0x100_0000_0000_0000_0000_0000 * 0x1_ffff_ffff;
    assert(-top <= num * den <= top) by (nonlinear_arith)
        requires
            -0x100_0000_0000_0000_0000_0000 <= num <= 0x100_0000_0000_0000_0000_0000,
            0 < den <= 0x1_ffff_ffff,
            top == 0x100_0000_0000_0000_0000_0000 * 0x1_ffff_ffff,
    ;
}

/// Failures are held against a method for five minutes at twenty points each; after that the
/// penalty fades linearly, to nothing one hour after the last failure.
pub open spec fn failure_penalty(entry: ScoreEntry, now: SystemTime) -> int {
    match entry.last_failure_at {
        Some(t) => {
            let elapsed = now.at() - t.at();
            if elapsed < 0 || elapsed > ONE_HOUR {
                0
            } else if elapsed <= FIVE_MINUTES {
                entry.consecutive_failures * 20 * POINT
            } else {
                entry.consecutive_failures * 20 * (ONE_HOUR - elapsed)
            }
        },
        None => 0,
    }
}

/// One point for every 100 ms of median latency beyond a second, twenty at most.
pub open spec fn latency_penalty(entry: ScoreEntry) -> int {
    if entry.median_latency_ms <= 1000 {
        0
    } else if entry.median_latency_ms >= 3000 {
        20 * POINT
    } else {
        (entry.median_latency_ms - 1000) * (POINT / 100)
    }
}

/// Five points if the last success is less than an hour ago.
pub open spec fn recency_bonus(entry: ScoreEntry, now: SystemTime) -> int {
    match entry.last_success_at {
        Some(t) => if 0 <= now.at() - t.at() < ONE_HOUR {
            5 * POINT
        } else {
            0
        },
        None => 0,
    }
}

/// The score of a method, in parts of a point over a denominator: the share of successes out of a
/// hundred, less the penalties, plus the bonus. Fifty points where nothing is known.
pub open spec fn score_of(entry: Option<ScoreEntry>, now: SystemTime) -> (int, int) {
    match entry {
        Some(e) => {
            let total = e.successes + e.failures;
            let rest = recency_bonus(e, now) - failure_penalty(e, now) - latency_penalty(e);
            if total == 0 {
                (50 * POINT, 1)
            } else {
                (100 * POINT * e.successes + rest * total, total)
            }
        },
        None => (50 * POINT as int, 1),
    }
}

/// Compute recent failure penalty.
/// Each failure in last 5 minutes = 20 points, decays linearly over 1 hour.
fn compute_recent_failure_penalty(entry: &ScoreEntry, now: SystemTime) -> (r: i128)
    ensures
        r == failure_penalty(*entry, now),
        0 <= r <= 255 * 20 * POINT,
{
    let last_failure: SystemTime = match entry.last_failure_at {
        Some(t) => t,
        None => {
            return 0;
        },
    };
    let elapsed: u128 = match now.duration_since(last_failure) {
        Some(d) => d.nanos,
        None => {
            return 0;  // future timestamp: ignore
        },
    };
    if elapsed > ONE_HOUR {
        return 0;
    }
    // Individual failures are not tracked, so the consecutive ones stand in for them.
    let failures: i128 = entry.consecutive_failures as i128;
    if elapsed <= FIVE_MINUTES {
        failures * 20 * POINT
    } else {
        let left: i128 = (ONE_HOUR - elapsed) as i128;
        assert(0 <= failures * 20 * left <= 255 * 20 * 3_300_000_000_000) by (nonlinear_arith)
            requires
                0 <= failures <= 255,
                0 <= left <= 3_300_000_000_000,
        ;
        failures * 20 * left
    }
}

/// Compute the score of a method from what is known of it.
///
/// score = base_quality - recent_failure_penalty - latency_penalty + recency_bonus
pub fn score_entry(entry: &Option<ScoreEntry>, now: SystemTime) -> (r: Score)
    ensures
        (r.num as int, r.den as int) == score_of(*entry, now),
        r.wf(),
{
    let entry: ScoreEntry = match entry {
        Some(e) => *e,
        None => {
            return Score { num: 50 * POINT, den: 1 };
        },
    };
    let total: i128 = entry.successes as i128 + entry.failures as i128;
    if total == 0 {
        return Score { num: 50 * POINT, den: 1 };
    }
    let penalty: i128 = compute_recent_failure_penalty(&entry, now);
    let latency: i128 = if entry.median_latency_ms <= 1000 {
        0
    } else if entry.median_latency_ms >= 3000 {
        20 * POINT
    } else {
        (entry.median_latency_ms as i128 - 1000) * 33_000_000_000
    };
    let bonus: i128 = match entry.last_success_at {
        Some(t) => match now.duration_since(t) {
            Some(d) => if d.nanos < ONE_HOUR {
                5 * POINT
            } else {
                0
            },
            None => 0,
        },
        None => 0,
    };
    let rest: i128 = bonus - penalty - latency;
    let base: i128 = 330_000_000_000_000 * entry.successes as i128;
    assert(-0x80_0000_0000_0000_0000_0000 <= rest * total <= 0x80_0000_0000_0000_0000_0000)
        by (nonlinear_arith)
        requires
            -(255 * 20 + 20) * 3_300_000_000_000 <= rest <= 5 * 3_300_000_000_000,
            0 <= total <= 0x1_ffff_ffff,
    ;
    Score { num: base + rest * total, den: total }
}

/// Compute score for a (fingerprint, method) pair.
pub fn compute_score<S: ScoreLookup + ?Sized>(
    scores: &S,
    fingerprint: &NetworkFingerprint,
    method: MethodId,
    now: SystemTime,
) -> (r: Score)
    ensures
        (r.num as int, r.den as int) == score_of(scores.entry(fingerprint@, method), now),
        r.wf(),
{
    score_entry(&scores.get(fingerprint, method), now)
}

/// What is known of each method on a network.
pub open spec fn entries<S: ScoreLookup + ?Sized>(scores: &S, fingerprint: Seq<u8>) -> spec_fn(
    MethodId,
) -> Option<ScoreEntry> {
    |m: MethodId| scores.entry(fingerprint, m)
}

/// Which methods count as permanently blocked on a network.
pub open spec fn blocks<S: ScoreLookup + ?Sized>(
    scores: &S,
    fingerprint: Seq<u8>,
    block_ttl: Duration,
    now: SystemTime,
) -> spec_fn(MethodId) -> bool {
    |m: MethodId| scores.blocked(fingerprint, m, block_ttl, now)
}

/// The score of each method.
pub open spec fn scoring(
    entry: spec_fn(MethodId) -> Option<ScoreEntry>,
    now: SystemTime,
) -> spec_fn(MethodId) -> (int, int) {
    |m: MethodId| score_of(entry(m), now)
}

/// Which of two methods comes first: the one with the higher score, of equal ones the one that is
/// earlier in the priority order.
pub open spec fn higher_first(score: spec_fn(MethodId) -> (int, int)) -> spec_fn(
    MethodId,
    MethodId,
) -> bool {
    |a: MethodId, b: MethodId|
        score(a).0 * score(b).1 > score(b).0 * score(a).1 || (score(a).0 * score(b).1 == score(b).0
            * score(a).1 && a.number() <= b.number())
}

/// The methods to choose from: those that are allowed and not blocked, in priority order.
pub open spec fn eligible(allowed: MethodSet, blocked: spec_fn(MethodId) -> bool) -> Seq<MethodId> {
    crate::client::method::all_methods().filter(|m: MethodId| allowed.allows(m) && !blocked(m))
}

/// The methods to choose from, best first.
pub open spec fn ranking(
    allowed: MethodSet,
    blocked: spec_fn(MethodId) -> bool,
    entry: spec_fn(MethodId) -> Option<ScoreEntry>,
    now: SystemTime,
) -> Seq<MethodId> {
    eligible(allowed, blocked).sort_by(higher_first(scoring(entry, now)))
}

/// When a method was blocked, if it was.
pub open spec fn blocked_since(entry: Option<ScoreEntry>) -> Option<SystemTime> {
    match entry {
        Some(e) => e.blocked_at,
        None => None,
    }
}

/// Of some methods the one that was blocked first, of equal ones the first of them; nothing where
/// none was ever blocked.
pub open spec fn least_recently_blocked(
    methods: Seq<MethodId>,
    entry: spec_fn(MethodId) -> Option<ScoreEntry>,
) -> Option<MethodId>
    decreases methods.len(),
{
    if methods.len() == 0 {
        None
    } else {
        let m = methods.last();
        let best = least_recently_blocked(methods.drop_last(), entry);
        match (blocked_since(entry(m)), best) {
            (None, _) => best,
            (Some(_), None) => Some(m),
            (Some(t), Some(b)) => if t.at() < blocked_since(entry(b))->0.at() {
                Some(m)
            } else {
                best
            },
        }
    }
}

/// What is tried where there is no candidate: the allowed method that was blocked first, or the
/// first allowed one where none was ever blocked.
pub open spec fn last_resort(
    allowed: MethodSet,
    entry: spec_fn(MethodId) -> Option<ScoreEntry>,
) -> Seq<MethodId> {
    match least_recently_blocked(allowed.allowed(), entry) {
        Some(m) => seq![m],
        None => if allowed.allowed().len() > 0 {
            seq![allowed.allowed()[0]]
        } else {
            Seq::empty()
        },
    }
}

/// The methods to probe.
pub open spec fn selection(
    allowed: MethodSet,
    top_k: usize,
    blocked: spec_fn(MethodId) -> bool,
    entry: spec_fn(MethodId) -> Option<ScoreEntry>,
    now: SystemTime,
) -> Seq<MethodId> {
    let ranked = ranking(allowed, blocked, entry, now);
    if top_k == 0 || ranked.len() == 0 {
        last_resort(allowed, entry)
    } else if ranked.len() <= top_k {
        ranked
    } else {
        ranked.take(top_k as int)
    }
}

proof fn lemma_score_den(entry: Option<ScoreEntry>, now: SystemTime)
    ensures
        score_of(entry, now).1 > 0,
{
}

proof fn lemma_cross(na: int, da: int, nb: int, db: int, nc: int, dc: int)
    requires
        da > 0,
        db > 0,
        dc > 0,
        na * db >= nb * da,
        nb * dc >= nc * db,
    ensures
        na * dc >= nc * da,
        na * dc == nc * da ==> na * db == nb * da && nb * dc == nc * db,
{
    assert((na * db) * dc >= (nb * da) * dc) by (nonlinear_arith)
        requires
            na * db >= nb * da,
            dc > 0,
    ;
    assert((nb * dc) * da >= (nc * db) * da) by (nonlinear_arith)
        requires
            nb * dc >= nc * db,
            da > 0,
    ;
    assert((na * db) * dc == (na * dc) * db) by (nonlinear_arith);
    assert((nb * da) * dc == (nb * dc) * da) by (nonlinear_arith);
    assert((nc * db) * da == (nc * da) * db) by (nonlinear_arith);
    assert(na * dc >= nc * da) by (nonlinear_arith)
        requires
            (na * dc) * db >= (nc * da) * db,
            db > 0,
    ;
    if na * dc == nc * da {
        assert((na * db) * dc == (nb * da) * dc);
        assert(na * db == nb * da) by (nonlinear_arith)
            requires
                (na * db) * dc == (nb * da) * dc,
                dc > 0,
        ;
        assert(nb * dc == nc * db) by (nonlinear_arith)
            requires
                (nb * dc) * da == (nc * db) * da,
                da > 0,
        ;
    }
}

proof fn lemma_higher_first_total(score: spec_fn(MethodId) -> (int, int))
    requires
        forall|m: MethodId| (#[trigger] score(m)).1 > 0,
    ensures
        vstd::relations::total_ordering(higher_first(score)),
{
    let leq = higher_first(score);
    assert forall|a: MethodId, b: MethodId, c: MethodId| #[trigger] leq(a, b) && #[trigger] leq(b, c) implies leq(a, c) by {
        lemma_cross(score(a).0, score(a).1, score(b).0, score(b).1, score(c).0, score(c).1);
    }
    assert forall|a: MethodId, b: MethodId| #[trigger] leq(a, b) && #[trigger] leq(b, a) implies a == b by {
        assert(a.number() == b.number());
    }
}

/// Putting an item where it belongs keeps a sequence sorted.
proof fn lemma_insert_sorted(
    s: Seq<MethodId>,
    leq: spec_fn(MethodId, MethodId) -> bool,
    at: int,
    m: MethodId,
)
    requires
        vstd::relations::total_ordering(leq),
        vstd::relations::sorted_by(s, leq),
        0 <= at <= s.len(),
        forall|k: int| 0 <= k < at ==> leq(#[trigger] s[k], m),
        at < s.len() ==> leq(m, s[at]),
    ensures
        vstd::relations::sorted_by(s.insert(at, m), leq),
{
    let t = s.insert(at, m);
    assert forall|i: int, j: int| 0 <= i < j < t.len() implies #[trigger] leq(t[i], t[j]) by {
        let a = if i < at { i } else { i - 1 };
        let b = if j < at { j } else { j - 1 };
        if i == at {
            if b > at {
                assert(leq(s[at], s[b]));
            }
            assert(leq(m, s[b]));
            assert(t[j] == s[b]);
        } else if j == at {
            assert(leq(s[i], m));
        } else {
            assert(t[i] == s[a] && t[j] == s[b]);
            assert(leq(s[a], s[b]));
        }
    }
}

/// Whether `points` are the scores of methods with a number below `bound`.
spec fn all_scored(
    methods: Seq<MethodId>,
    points: Seq<Score>,
    score: spec_fn(MethodId) -> (int, int),
    bound: int,
) -> bool {
    &&& points.len() == methods.len()
    &&& forall|k: int|
        0 <= k < methods.len() ==> {
            &&& (#[trigger] points[k]).wf()
            &&& (points[k].num as int, points[k].den as int) == score(methods[k])
            &&& methods[k].number() < bound
        }
}

proof fn lemma_scored_insert(
    methods: Seq<MethodId>,
    points: Seq<Score>,
    score: spec_fn(MethodId) -> (int, int),
    bound: int,
    at: int,
    method: MethodId,
    new: Score,
)
    requires
        all_scored(methods, points, score, bound),
        0 <= at <= methods.len(),
        new.wf(),
        (new.num as int, new.den as int) == score(method),
        method.number() == bound,
    ensures
        all_scored(methods.insert(at, method), points.insert(at, new), score, bound + 1),
{
    let (more, marks) = (methods.insert(at, method), points.insert(at, new));
    assert forall|k: int| 0 <= k < more.len() implies {
        &&& (#[trigger] marks[k]).wf()
        &&& (marks[k].num as int, marks[k].den as int) == score(more[k])
        &&& more[k].number() < bound + 1
    } by {
        if k < at {
            assert(marks[k] == points[k] && more[k] == methods[k]);
        } else if k > at {
            assert(marks[k] == points[k - 1] && more[k] == methods[k - 1]);
        }
    }
}

/// Ranks the methods that are allowed and not blocked, best first.
fn rank<S: ScoreLookup + ?Sized>(
    fingerprint: &NetworkFingerprint,
    allowed: MethodSet,
    scores: &S,
    cfg: &VeilConfig,
    now: SystemTime,
) -> (r: Vec<MethodId>)
    ensures
        r@ == ranking(
            allowed,
            blocks(scores, fingerprint@, cfg.block_ttl, now),
            entries(scores, fingerprint@),
            now,
        ),
{
    let ghost blocked = blocks(scores, fingerprint@, cfg.block_ttl, now);
    let ghost entry = entries(scores, fingerprint@);
    let ghost score = scoring(entry, now);
    let ghost leq = higher_first(score);
    let ghost open = |m: MethodId| allowed.allows(m) && !blocked(m);
    let all: &'static [MethodId] = MethodId::all();
    let mut ranked: Vec<MethodId> = Vec::new();
    let mut points: Vec<Score> = Vec::new();
    let mut i: usize = 0;
    proof {
        assert forall|m: MethodId| (#[trigger] score(m)).1 > 0 by {
            lemma_score_den(entry(m), now);
        }
        lemma_higher_first_total(score);
        reveal(Seq::filter);
        assert(all@.take(0) =~= Seq::empty());
        assert(all@.take(0).filter(open) =~= ranked@);
    }
    while i < all.len()
        invariant
            i <= all@.len(),
            all@ == crate::client::method::all_methods(),
            blocked == blocks(scores, fingerprint@, cfg.block_ttl, now),
            entry == entries(scores, fingerprint@),
            score == scoring(entry, now),
            leq == higher_first(score),
            open == (|m: MethodId| allowed.allows(m) && !blocked(m)),
            vstd::relations::total_ordering(leq),
            vstd::relations::sorted_by(ranked@, leq),
            ranked@.to_multiset() == all@.take(i as int).filter(open).to_multiset(),
            all_scored(ranked@, points@, score, i as int),
        decreases all@.len() - i,
    {
        let method: MethodId = all[i];
        let ghost before = ranked@;
        let ghost seen = all@.take(i as int).filter(open);
        proof {
            reveal(Seq::filter);
            assert(all@.take(i + 1).drop_last() =~= all@.take(i as int));
            assert(method.number() == i);
        }
        if allowed.contains(method) && !scores.is_permanently_blocked(
            fingerprint,
            method,
            cfg.block_ttl,
            now,
        ) {
            let new: Score = compute_score(scores, fingerprint, method, now);
            let mut at: usize = 0;
            while at < ranked.len() && points[at].is_at_least(&new)
                invariant
                    at <= ranked@.len(),
                    new.wf(),
                    points@.len() == ranked@.len(),
                    forall|k: int| 0 <= k < ranked@.len() ==> (#[trigger] points@[k]).wf(),
                    forall|k: int| 0 <= k < at ==> (#[trigger] points@[k]).at_least(new),
                decreases ranked@.len() - at,
            {
                at = at + 1;
            }
            proof {
                assert(open(method));
                assert((new.num as int, new.den as int) == score(method));
                assert forall|k: int| 0 <= k < at implies leq(#[trigger] ranked@[k], method) by {
                    assert(points@[k].at_least(new));
                }
                if at < ranked@.len() {
                    assert(!points@[at as int].at_least(new));
                    assert(leq(method, ranked@[at as int]));
                }
                lemma_insert_sorted(before, leq, at as int, method);
                vstd::seq_lib::to_multiset_insert(before, at as int, method);
                lemma_multiset_push(seen, method);
            }
            let ghost old_points = points@;
            ranked.insert(at, method);
            points.insert(at, new);
            proof {
                assert(ranked@ =~= before.insert(at as int, method));
                assert(points@ =~= old_points.insert(at as int, new));
                lemma_scored_insert(before, old_points, score, i as int, at as int, method, new);
                assert(all_scored(ranked@, points@, score, i + 1));
            }
        } else {
            assert(all_scored(ranked@, points@, score, i + 1));
        }
        i = i + 1;
    }
    proof {
        assert(all@.take(i as int) =~= all@);
        let list = eligible(allowed, blocked);
        list.lemma_sort_by_ensures(leq);
        vstd::seq_lib::lemma_sorted_unique(ranked@, list.sort_by(leq), leq);
    }
    ranked
}

proof fn lemma_multiset_push(s: Seq<MethodId>, m: MethodId)
    ensures
        s.push(m).to_multiset() == s.to_multiset().insert(m),
{
    broadcast use vstd::seq_lib::group_to_multiset_ensures;

}

/// What to try where there is no candidate.
fn fall_back<S: ScoreLookup + ?Sized>(
    fingerprint: &NetworkFingerprint,
    allowed: MethodSet,
    scores: &S,
) -> (r: Vec<MethodId>)
    ensures
        r@ == last_resort(allowed, entries(scores, fingerprint@)),
{
    let ghost entry = entries(scores, fingerprint@);
    let methods: Vec<MethodId> = allowed.iter_allowed();
    let mut best: Option<(MethodId, SystemTime)> = None;
    let mut i: usize = 0;
    while i < methods.len()
        invariant
            i <= methods@.len(),
            entry == entries(scores, fingerprint@),
            match (best, least_recently_blocked(methods@.take(i as int), entry)) {
                (None, None) => true,
                (Some((m, t)), Some(b)) => m == b && blocked_since(entry(b)) == Some(t),
                _ => false,
            },
        decreases methods@.len() - i,
    {
        let m: MethodId = methods[i];
        assert(methods@.take(i + 1).drop_last() =~= methods@.take(i as int));
        match scores.get(fingerprint, m) {
            Some(e) => match e.blocked_at {
                Some(t) => {
                    best =
                    match best {
                        None => Some((m, t)),
                        Some((b, since)) => if t.is_before(since) {
                            Some((m, t))
                        } else {
                            Some((b, since))
                        },
                    };
                },
                None => {},
            },
            None => {},
        }
        i = i + 1;
    }
    assert(methods@.take(i as int) =~= methods@);
    let mut out: Vec<MethodId> = Vec::new();
    match best {
        Some((m, _)) => {
            out.push(m);
        },
        None => if methods.len() > 0 {
            out.push(methods[0]);
        },
    }
    assert(out@ =~= last_resort(allowed, entry));
    out
}

/// Select top-K probe candidates based on scores.
pub fn select_probe_candidates<S: ScoreLookup + ?Sized>(
    fingerprint: &NetworkFingerprint,
    allowed: MethodSet,
    scores: &S,
    cfg: &VeilConfig,
    now: SystemTime,
) -> (r: Vec<MethodId>)
    ensures
        r@ == selection(
            allowed,
            cfg.top_k_probes,
            blocks(scores, fingerprint@, cfg.block_ttl, now),
            entries(scores, fingerprint@),
            now,
        ),
{
    let ghost blocked = blocks(scores, fingerprint@, cfg.block_ttl, now);
    let ghost entry = entries(scores, fingerprint@);
    let mut ranked: Vec<MethodId> = rank(fingerprint, allowed, scores, cfg, now);
    assert(ranked@ == ranking(allowed, blocked, entry, now));
    if cfg.top_k_probes == 0 || ranked.len() == 0 {
        // Everything is blocked: try the least-recently-blocked method.
        return fall_back(fingerprint, allowed, scores);
    }
    if ranked.len() > cfg.top_k_probes {
        ranked.truncate(cfg.top_k_probes);
    }
    ranked
}

proof fn lemma_ranking(
    allowed: MethodSet,
    blocked: spec_fn(MethodId) -> bool,
    entry: spec_fn(MethodId) -> Option<ScoreEntry>,
    now: SystemTime,
)
    ensures
        ({
            let ranked = ranking(allowed, blocked, entry, now);
            &&& ranked.len() == eligible(allowed, blocked).len()
            &&& vstd::relations::sorted_by(ranked, higher_first(scoring(entry, now)))
            &&& forall|m: MethodId| #[trigger]
                ranked.contains(m) <==> allowed.allows(m) && !blocked(m)
            &&& ranked.no_duplicates()
        }),
{
    broadcast use vstd::seq_lib::group_to_multiset_ensures;

    let score = scoring(entry, now);
    let leq = higher_first(score);
    let list = eligible(allowed, blocked);
    let ranked = ranking(allowed, blocked, entry, now);
    assert forall|m: MethodId| (#[trigger] score(m)).1 > 0 by {
        lemma_score_den(entry(m), now);
    }
    lemma_higher_first_total(score);
    list.lemma_sort_by_ensures(leq);
    let all = crate::client::method::all_methods();
    let open = |m: MethodId| allowed.allows(m) && !blocked(m);
    assert(all.no_duplicates());
    lemma_filter(all, open);
    assert forall|m: MethodId| #[trigger] ranked.contains(m) <==> open(m) by {
        assert(ranked.contains(m) <==> ranked.to_multiset().count(m) > 0);
        assert(list.contains(m) <==> list.to_multiset().count(m) > 0);
        assert(all.contains(m)) by {
            assert(all[m.number()] == m);
        }
    }
    assert(ranked.to_multiset().len() == ranked.len() && list.to_multiset().len() == list.len());
    list.lemma_multiset_has_no_duplicates();
    ranked.lemma_multiset_has_no_duplicates_conv();
}

/// What a filter keeps, and that it repeats nothing.
proof fn lemma_filter(s: Seq<MethodId>, keep: spec_fn(MethodId) -> bool)
    requires
        s.no_duplicates(),
    ensures
        s.filter(keep).no_duplicates(),
        forall|m: MethodId| #[trigger] s.filter(keep).contains(m) <==> s.contains(m) && keep(m),
    decreases s.len(),
{
    reveal(Seq::filter);
    if s.len() > 0 {
        let t = s.drop_last();
        let x = s.last();
        assert(t.no_duplicates());
        lemma_filter(t, keep);
        assert forall|m: MethodId| s.contains(m) <==> t.contains(m) || m == x by {
            if s.contains(m) && m != x {
                let i = choose|i: int| 0 <= i < s.len() && s[i] == m;
                assert(t[i] == m);
            }
            if t.contains(m) {
                let i = choose|i: int| 0 <= i < t.len() && t[i] == m;
                assert(s[i] == m);
            }
            assert(s[s.len() - 1] == x);
        }
        assert(!t.contains(x)) by {
            if t.contains(x) {
                let i = choose|i: int| 0 <= i < t.len() && t[i] == x;
                assert(s[i] == s[s.len() - 1]);
            }
        }
        if keep(x) {
            assert(s.filter(keep) =~= t.filter(keep).push(x));
            assert(!t.filter(keep).contains(x));
            assert forall|m: MethodId| #[trigger] s.filter(keep).contains(m) <==> s.contains(m)
                && keep(m) by {
                if t.filter(keep).contains(m) {
                    let i = choose|i: int| 0 <= i < t.filter(keep).len() && t.filter(keep)[i] == m;
                    assert(s.filter(keep)[i] == m);
                }
                assert(s.filter(keep)[t.filter(keep).len() as int] == x);
                if s.filter(keep).contains(m) && m != x {
                    let i = choose|i: int| 0 <= i < s.filter(keep).len() && s.filter(keep)[i] == m;
                    assert(t.filter(keep)[i] == m);
                }
            }
        }
    }
}

proof fn lemma_last_resort(allowed: MethodSet, entry: spec_fn(MethodId) -> Option<ScoreEntry>)
    ensures
        last_resort(allowed, entry).len() <= 1,
        last_resort(allowed, entry).len() == 1 <==> allowed.allowed().len() > 0,
        forall|m: MethodId| #[trigger]
            last_resort(allowed, entry).contains(m) ==> allowed.allows(m),
{
    let methods = allowed.allowed();
    lemma_least_recent_member(methods, entry);
    let all = crate::client::method::all_methods();
    lemma_filter(all, |m: MethodId| allowed.allows(m));
    if methods.len() > 0 {
        assert(methods.contains(methods[0]));
    }
}

proof fn lemma_least_recent_member(
    methods: Seq<MethodId>,
    entry: spec_fn(MethodId) -> Option<ScoreEntry>,
)
    ensures
        least_recently_blocked(methods, entry) matches Some(m) ==> methods.contains(m)
            && blocked_since(entry(m)) is Some,
    decreases methods.len(),
{
    if methods.len() > 0 {
        lemma_least_recent_member(methods.drop_last(), entry);
        assert(methods[methods.len() - 1] == methods.last());
        match least_recently_blocked(methods.drop_last(), entry) {
            Some(b) => {
                let i = choose|i: int|
                    0 <= i < methods.drop_last().len() && methods.drop_last()[i] == b;
                assert(methods[i] == b);
            },
            None => {},
        }
    }
}

/// Whatever is selected is allowed, and no method is selected twice. No more than the wanted
/// number is selected, one at least: as long as any method is allowed there is a candidate.
pub proof fn law_candidates_are_allowed_and_few(
    allowed: MethodSet,
    top_k: usize,
    blocked: spec_fn(MethodId) -> bool,
    entry: spec_fn(MethodId) -> Option<ScoreEntry>,
    now: SystemTime,
)
    ensures
        ({
            let chosen = selection(allowed, top_k, blocked, entry, now);
            &&& forall|m: MethodId| #[trigger] chosen.contains(m) ==> allowed.allows(m)
            &&& chosen.no_duplicates()
            &&& chosen.len() <= top_k || chosen.len() == 1
            &&& chosen.len() > 0 <==> allowed.allowed().len() > 0
        }),
{
    let chosen = selection(allowed, top_k, blocked, entry, now);
    let ranked = ranking(allowed, blocked, entry, now);
    lemma_ranking(allowed, blocked, entry, now);
    lemma_last_resort(allowed, entry);
    let all = crate::client::method::all_methods();
    lemma_filter(all, |m: MethodId| allowed.allows(m));
    if ranked.len() > 0 {
        let m = ranked[0];
        assert(ranked.contains(m));
        assert(all[m.number()] == m);
        assert(allowed.allowed().contains(m));
    }
    if top_k > 0 && ranked.len() > 0 {
        assert forall|m: MethodId| #[trigger] chosen.contains(m) implies allowed.allows(m) by {
            let i = choose|i: int| 0 <= i < chosen.len() && chosen[i] == m;
            assert(ranked[i] == m);
            assert(ranked.contains(m));
        }
    }
}

/// A blocked method is not probed while there is one that is not blocked.
pub proof fn law_blocked_methods_are_a_last_resort(
    allowed: MethodSet,
    top_k: usize,
    blocked: spec_fn(MethodId) -> bool,
    entry: spec_fn(MethodId) -> Option<ScoreEntry>,
    now: SystemTime,
    free: MethodId,
    m: MethodId,
)
    requires
        top_k > 0,
        allowed.allows(free),
        !blocked(free),
        selection(allowed, top_k, blocked, entry, now).contains(m),
    ensures
        !blocked(m),
{
    let chosen = selection(allowed, top_k, blocked, entry, now);
    let ranked = ranking(allowed, blocked, entry, now);
    lemma_ranking(allowed, blocked, entry, now);
    assert(ranked.contains(free));
    let i = choose|i: int| 0 <= i < chosen.len() && chosen[i] == m;
    assert(ranked[i] == m);
    assert(ranked.contains(m));
}

/// The best are probed, best first: no candidate has a lower score than a later one, nor than any
/// method that could have been selected and was not.
pub proof fn law_the_best_are_probed_first(
    allowed: MethodSet,
    top_k: usize,
    blocked: spec_fn(MethodId) -> bool,
    entry: spec_fn(MethodId) -> Option<ScoreEntry>,
    now: SystemTime,
    i: int,
    m: MethodId,
)
    requires
        top_k > 0,
        allowed.allows(m),
        !blocked(m),
        ({
            let chosen = selection(allowed, top_k, blocked, entry, now);
            &&& 0 <= i < chosen.len()
            &&& !chosen.contains(m) || exists|j: int| i <= j < chosen.len() && chosen[j] == m
        }),
    ensures
        ({
            let c = score_of(entry(selection(allowed, top_k, blocked, entry, now)[i]), now);
            let s = score_of(entry(m), now);
            c.0 * s.1 >= s.0 * c.1
        }),
{
    let chosen = selection(allowed, top_k, blocked, entry, now);
    let ranked = ranking(allowed, blocked, entry, now);
    let leq = higher_first(scoring(entry, now));
    lemma_ranking(allowed, blocked, entry, now);
    assert(ranked.contains(m));
    let n = choose|n: int| 0 <= n < ranked.len() && ranked[n] == m;
    assert(chosen[i] == ranked[i]);
    if n < i {
        assert(chosen[n] == m);
        assert(chosen.contains(m));
        let j = choose|j: int| i <= j < chosen.len() && chosen[j] == m;
        assert(ranked[j] == ranked[n]);
        assert(false);
    }
    if n > i {
        assert(leq(ranked[i], ranked[n]));
    }
}

/// An old failure weighs no more than a recent one: for a method that fared the same otherwise,
/// the penalty never grows as the time since the last failure does.
pub proof fn law_failures_fade(entry: ScoreEntry, now: SystemTime, later: SystemTime)
    requires
        entry.last_failure_at matches Some(t) && t.at() <= now.at(),
        now.at() <= later.at(),
    ensures
        0 <= failure_penalty(entry, later) <= failure_penalty(entry, now),
{
    let t = entry.last_failure_at->0;
    let (a, b) = (now.at() - t.at(), later.at() - t.at());
    let f = entry.consecutive_failures * 20;
    assert(f * (ONE_HOUR - b) <= f * (ONE_HOUR - a)) by (nonlinear_arith)
        requires
            a <= b,
            f >= 0,
    ;
    if b <= ONE_HOUR {
        assert(0 <= f * (ONE_HOUR - b)) by (nonlinear_arith)
            requires
                b <= ONE_HOUR,
                f >= 0,
        ;
    }
    if a <= ONE_HOUR {
        assert(0 <= f * (ONE_HOUR - a)) by (nonlinear_arith)
            requires
                a <= ONE_HOUR,
                f >= 0,
        ;
    }
    if a <= FIVE_MINUTES && b > FIVE_MINUTES {
        assert(f * (ONE_HOUR - b) <= f * POINT) by (nonlinear_arith)
            requires
                b > FIVE_MINUTES,
                f >= 0,
                ONE_HOUR - FIVE_MINUTES == POINT,
        ;
    }
    assert(0 <= f * POINT) by (nonlinear_arith)
        requires
            f >= 0,
            POINT > 0,
    ;
}

/// What a score is made of, in parts of which 3300000000000 make a point, over the number of
/// outcomes: a hundred points for the share of successes; less twenty for each failure in a row,
/// for five minutes after the last one, and from then on linearly less until an hour after it;
/// less one for every hundred milliseconds of latency beyond a second, twenty at most; and five
/// more if the last success is less than an hour ago. A time in the future counts for nothing.
pub proof fn law_a_score_has_four_parts(entry: ScoreEntry, now: SystemTime)
    requires
        entry.successes + entry.failures > 0,
    ensures
        ({
            let (num, den) = score_of(Some(entry), now);
            let point: int = 3_300_000_000_000;
            let share = 100 * point * entry.successes;
            let bonus: int = match entry.last_success_at {
                Some(t) => if t.at() <= now.at() && now.at() - t.at() < 3_600_000_000_000 {
                    5 * point
                } else {
                    0
                },
                None => 0,
            };
            let held: int = match entry.last_failure_at {
                Some(t) => {
                    let age = now.at() - t.at();
                    let each = 20 * entry.consecutive_failures;
                    if 0 <= age && age <= 300_000_000_000 {
                        each * point
                    } else if 300_000_000_000 < age && age <= 3_600_000_000_000 {
                        each * (3_600_000_000_000 - age)
                    } else {
                        0
                    }
                },
                None => 0,
            };
            let latency = entry.median_latency_ms as int;
            let slow: int = if latency <= 1000 {
                0
            } else if latency < 3000 {
                (latency - 1000) * 33_000_000_000
            } else {
                20 * point
            };
            &&& den == entry.successes + entry.failures
            &&& num == share + (bonus - held - slow) * den
        }),
{
    let each = 20 * entry.consecutive_failures;
    assert(entry.consecutive_failures * 20 == each);
    assert(100 * POINT * entry.successes == 330_000_000_000_000 * entry.successes)
        by (nonlinear_arith)
        requires
            POINT == 3_300_000_000_000,
    ;
    assert(100 * 3_300_000_000_000 * entry.successes == 330_000_000_000_000 * entry.successes)
        by (nonlinear_arith);
}

/// A method of which nothing is known scores fifty points, and so does one without an outcome.
pub proof fn law_an_unknown_method_scores_fifty(entry: ScoreEntry, now: SystemTime)
    requires
        entry.successes == 0,
        entry.failures == 0,
    ensures
        score_of(None, now) == (165_000_000_000_000int, 1int),
        score_of(Some(entry), now) == (165_000_000_000_000int, 1int),
{
}

/// As many candidates are selected as are wanted, or all that are allowed and not blocked where
/// there are fewer; every one of those is selected that outranks the last one. Of equal scores the
/// earlier method in the priority order comes first, and is selected first.
pub proof fn law_ties_go_by_priority(
    allowed: MethodSet,
    top_k: usize,
    blocked: spec_fn(MethodId) -> bool,
    entry: spec_fn(MethodId) -> Option<ScoreEntry>,
    now: SystemTime,
    i: int,
    m: MethodId,
)
    requires
        top_k > 0,
        allowed.allows(m),
        !blocked(m),
        ({
            let chosen = selection(allowed, top_k, blocked, entry, now);
            &&& 0 <= i < chosen.len()
            &&& !chosen.contains(m) || exists|j: int| i < j < chosen.len() && chosen[j] == m
        }),
    ensures
        ({
            let chosen = selection(allowed, top_k, blocked, entry, now);
            let c = score_of(entry(chosen[i]), now);
            let s = score_of(entry(m), now);
            &&& c.0 * s.1 >= s.0 * c.1
            &&& c.0 * s.1 == s.0 * c.1 ==> chosen[i].number() < m.number()
            &&& !chosen.contains(m) ==> chosen.len() == top_k
        }),
{
    let chosen = selection(allowed, top_k, blocked, entry, now);
    let ranked = ranking(allowed, blocked, entry, now);
    let leq = higher_first(scoring(entry, now));
    lemma_ranking(allowed, blocked, entry, now);
    assert(ranked.contains(m));
    let n = choose|n: int| 0 <= n < ranked.len() && ranked[n] == m;
    assert(chosen[i] == ranked[i]);
    if n <= i {
        assert(chosen[n] == m);
        assert(chosen.contains(m));
        let j = choose|j: int| i < j < chosen.len() && chosen[j] == m;
        assert(ranked[j] == ranked[n]);
        assert(false);
    }
    assert(leq(ranked[i], ranked[n]));
    assert(ranked[i] != ranked[n]);
    if ranked[i].number() == m.number() {
        let all = crate::client::method::all_methods();
        assert(all[ranked[i].number()] == ranked[i] && all[m.number()] == m);
    }
    if !chosen.contains(m) && n < chosen.len() {
        assert(chosen[n] == m);
    }
}

/// How many candidates there are: the wanted number, or as many methods as are allowed and not
/// blocked, whichever is less.
pub proof fn law_as_many_are_probed_as_wanted(
    allowed: MethodSet,
    top_k: usize,
    blocked: spec_fn(MethodId) -> bool,
    entry: spec_fn(MethodId) -> Option<ScoreEntry>,
    now: SystemTime,
    free: Set<MethodId>,
)
    requires
        top_k > 0,
        forall|m: MethodId| #[trigger] free.contains(m) <==> allowed.allows(m) && !blocked(m),
        free.len() > 0,
    ensures
        selection(allowed, top_k, blocked, entry, now).len() == if free.len() <= top_k {
            free.len() as int
        } else {
            top_k as int
        },
{
    let ranked = ranking(allowed, blocked, entry, now);
    lemma_ranking(allowed, blocked, entry, now);
    ranked.unique_seq_to_set();
    assert(ranked.to_set() =~= free);
}

/// What is tried where every allowed method is blocked, or none is wanted: one allowed method. If
/// any of them was ever blocked it is one that was blocked, and none of the allowed ones was
/// blocked before it, nor at the same time and earlier in the priority order. If none was, it is
/// the first of them.
pub proof fn law_the_last_resort_is_the_oldest_block(
    allowed: MethodSet,
    top_k: usize,
    blocked: spec_fn(MethodId) -> bool,
    entry: spec_fn(MethodId) -> Option<ScoreEntry>,
    now: SystemTime,
    m: MethodId,
)
    requires
        top_k == 0 || forall|x: MethodId| #[trigger] allowed.allows(x) ==> blocked(x),
        allowed.allows(m),
    ensures
        ({
            let chosen = selection(allowed, top_k, blocked, entry, now);
            let one = chosen[0];
            let since = |x: MethodId| if entry(x) is Some { entry(x)->0.blocked_at } else { None };
            &&& chosen.len() == 1
            &&& allowed.allows(one)
            &&& since(m) is Some ==> since(one) is Some
            &&& since(m) is Some && m != one ==> since(one)->0.at() < since(m)->0.at() || (
            since(one)->0.at() == since(m)->0.at() && one.number() < m.number())
            &&& since(one) is None && m != one ==> one.number() < m.number()
        }),
{
    let ranked = ranking(allowed, blocked, entry, now);
    lemma_ranking(allowed, blocked, entry, now);
    if ranked.len() > 0 && top_k > 0 {
        assert(ranked.contains(ranked[0]));
        assert(false);
    }
    let methods = allowed.allowed();
    crate::client::method::law_allowed_methods_are_listed_in_order(allowed, m, 0, 0);
    lemma_last_resort(allowed, entry);
    lemma_least_recent_member(methods, entry);
    let k = choose|k: int| 0 <= k < methods.len() && methods[k] == m;
    let one = last_resort(allowed, entry)[0];
    assert(last_resort(allowed, entry).contains(one));
    crate::client::method::law_allowed_methods_are_listed_in_order(allowed, one, 0, 0);
    assert forall|i: int, j: int| 0 <= i < j < methods.len() implies (#[trigger] methods[i]).number()
        < (#[trigger] methods[j]).number() by {
        crate::client::method::law_allowed_methods_are_listed_in_order(allowed, m, i, j);
    }
    lemma_least_recent(methods, entry, k);
    if blocked_since(entry(one)) is None {
        assert(one == methods[0]);
    }
}

proof fn lemma_least_recent(
    methods: Seq<MethodId>,
    entry: spec_fn(MethodId) -> Option<ScoreEntry>,
    k: int,
)
    requires
        0 <= k < methods.len(),
        forall|i: int, j: int|
            0 <= i < j < methods.len() ==> (#[trigger] methods[i]).number() < (
            #[trigger] methods[j]).number(),
    ensures
        blocked_since(entry(methods[k])) matches Some(t) ==> {
            &&& least_recently_blocked(methods, entry) matches Some(b)
            &&& blocked_since(entry(b)) is Some
            &&& b == methods[k] || blocked_since(entry(b))->0.at() < t.at() || (blocked_since(
                entry(b),
            )->0.at() == t.at() && b.number() < methods[k].number())
        },
    decreases methods.len(),
{
    let front = methods.drop_last();
    lemma_least_recent_member(front, entry);
    lemma_least_recent_member(methods, entry);
    if k < front.len() {
        assert forall|i: int, j: int| 0 <= i < j < front.len() implies (#[trigger] front[i]).number()
            < (#[trigger] front[j]).number() by {
            assert(front[i] == methods[i] && front[j] == methods[j]);
        }
        lemma_least_recent(front, entry, k);
        assert(front[k] == methods[k]);
    } else {
        assert(methods[k] == methods.last());
        if let Some(b) = least_recently_blocked(front, entry) {
            let i = choose|i: int| 0 <= i < front.len() && front[i] == b;
            assert(methods[i] == b);
            assert(methods[i].number() < methods[k].number());
        }
    }
}

}
