//! What is stored of a method on a network, and what follows from it.
//!
//! One row for each (fingerprint, method) pair:
//!
//! ```sql
//! CREATE TABLE scores (
//!     fingerprint BLOB NOT NULL,
//!     method INTEGER NOT NULL,            -- number of the method
//!     successes INTEGER NOT NULL DEFAULT 0,
//!     failures INTEGER NOT NULL DEFAULT 0,
//!     last_success_at INTEGER,            -- unix epoch seconds
//!     last_failure_at INTEGER,            -- unix epoch seconds
//!     median_latency_ms INTEGER NOT NULL DEFAULT 0,  -- EWMA
//!     blocked_at INTEGER,                 -- unix epoch seconds (NULL = not blocked)
//!     consecutive_failures INTEGER NOT NULL DEFAULT 0,
//!     PRIMARY KEY (fingerprint, method)
//! );
//! ```

use crate::client::average::average;
use crate::client::candidates::{ScoreEntry, ScoreLookup};
use crate::client::fsm::{ProbeFailureReason, ScoreOutcome};
use crate::client::method::{MethodId, NetworkFingerprint};
use crate::clock::{Duration, SystemTime};
use crate::trace::sorting::{sort_stably, Keyed};
use vstd::prelude::*;

verus! {

/// From this many failures in a row on, a blocked method counts as permanently blocked.
pub const BLOCK_THRESHOLD: u8 = 5;

/// The columns of one row, without its key.
#[derive(Debug, Clone, Copy, PartialEq, Eq, Structural)]
pub struct ScoreRow {
    pub successes: i64,
    pub failures: i64,
    pub last_success_at: Option<i64>,
    pub last_failure_at: Option<i64>,
    pub median_latency_ms: i64,
    pub blocked_at: Option<i64>,
    pub consecutive_failures: i64,
}

/// A row of which nothing has been recorded.
pub open spec fn blank_row() -> ScoreRow {
    ScoreRow {
        successes: 0,
        failures: 0,
        last_success_at: None,
        last_failure_at: None,
        median_latency_ms: 0,
        blocked_at: None,
        consecutive_failures: 0,
    }
}

/// The row there is, or a blank one.
pub open spec fn row_or_blank(row: Option<ScoreRow>) -> ScoreRow {
    match row {
        Some(row) => row,
        None => blank_row(),
    }
}

/// Whether one more outcome can be counted: there is room in the counters that it changes, and the
/// latency that a success is averaged with can be one.
pub open spec fn has_room(row: Option<ScoreRow>, outcome: ScoreOutcome) -> bool {
    let row = row_or_blank(row);
    match outcome {
        ScoreOutcome::Success { .. } => row.successes < i64::MAX && 0 <= row.median_latency_ms
            <= u32::MAX,
        ScoreOutcome::Failure { .. } => row.failures < i64::MAX && row.consecutive_failures
            < i64::MAX,
    }
}

/// Whether a failure means that the method is recognised and blocked.
pub open spec fn is_hard_block(reason: ProbeFailureReason) -> bool {
    reason == ProbeFailureReason::FingerprintBlocked || reason
        == ProbeFailureReason::WebTunnelDecoyResponse
}

/// The moving average of the latency: seven tenths of the old value and three of the new one, in
/// double precision. The first value stands for itself.
pub open spec fn smoothed(current: nat, latency_ms: nat) -> nat {
    if current == 0 {
        latency_ms
    } else {
        crate::client::average::averaged(current, latency_ms)
    }
}

/// The row after one more outcome.
pub open spec fn recorded(row: Option<ScoreRow>, outcome: ScoreOutcome, now: i64) -> ScoreRow {
    let old = row_or_blank(row);
    match outcome {
        ScoreOutcome::Success { latency_ms } => ScoreRow {
            successes: (old.successes + 1) as i64,
            last_success_at: Some(now),
            median_latency_ms: smoothed(old.median_latency_ms as nat, latency_ms as nat) as i64,
            consecutive_failures: 0,
            blocked_at: None,
            ..old
        },
        ScoreOutcome::Failure { reason } => ScoreRow {
            failures: (old.failures + 1) as i64,
            last_failure_at: Some(now),
            consecutive_failures: (old.consecutive_failures + 1) as i64,
            blocked_at: if is_hard_block(reason) {
                Some(now)
            } else {
                old.blocked_at
            },
            ..old
        },
    }
}

/// EWMA for latency: new = old * 0.7 + new * 0.3
pub fn smooth_latency(current: u32, latency_ms: u32) -> (r: u32)
    ensures
        r == smoothed(current as nat, latency_ms as nat),
{
    if current == 0 {
        latency_ms
    } else {
        average(current, latency_ms)
    }
}

/// Record a score outcome for a (fingerprint, method) pair: the row that takes the place of the
/// stored one. `now` is in seconds after the Unix epoch.
pub fn record(row: Option<ScoreRow>, outcome: ScoreOutcome, now: i64) -> (r: ScoreRow)
    requires
        has_room(row, outcome),
    ensures
        r == recorded(row, outcome, now),
        0 <= row_or_blank(row).median_latency_ms <= u32::MAX ==> 0 <= r.median_latency_ms
            <= u32::MAX,
{
    let old: ScoreRow = match row {
        Some(row) => row,
        None => ScoreRow {
            successes: 0,
            failures: 0,
            last_success_at: None,
            last_failure_at: None,
            median_latency_ms: 0,
            blocked_at: None,
            consecutive_failures: 0,
        },
    };
    match outcome {
        ScoreOutcome::Success { latency_ms } => ScoreRow {
            successes: old.successes + 1,
            failures: old.failures,
            last_success_at: Some(now),
            last_failure_at: old.last_failure_at,
            median_latency_ms: smooth_latency(old.median_latency_ms as u32, latency_ms) as i64,
            blocked_at: None,
            consecutive_failures: 0,
        },
        ScoreOutcome::Failure { reason } => {
            let hard_block: bool = reason == ProbeFailureReason::FingerprintBlocked || reason
                == ProbeFailureReason::WebTunnelDecoyResponse;
            ScoreRow {
                successes: old.successes,
                failures: old.failures + 1,
                last_success_at: old.last_success_at,
                last_failure_at: Some(now),
                median_latency_ms: old.median_latency_ms,
                blocked_at: if hard_block {
                    Some(now)
                } else {
                    old.blocked_at
                },
                consecutive_failures: old.consecutive_failures + 1,
            }
        },
    }
}

/// A point in time, from seconds after the Unix epoch.
pub fn epoch_to_system(secs: i64) -> (r: SystemTime)
    requires
        secs >= 0,
    ensures
        r == (SystemTime { secs, nanos: 0 }),
{
    SystemTime::from_unix_secs(secs)
}

/// A column's time, if it holds one.
pub open spec fn time_of(secs: Option<i64>) -> Option<SystemTime> {
    match secs {
        Some(secs) => Some(SystemTime { secs, nanos: 0 }),
        None => None,
    }
}

/// Whether a column holds no time before the epoch.
pub open spec fn after_epoch(secs: Option<i64>) -> bool {
    secs matches Some(secs) ==> secs >= 0
}

fn read_time(secs: Option<i64>) -> (r: Option<SystemTime>)
    requires
        after_epoch(secs),
    ensures
        r == time_of(secs),
{
    match secs {
        Some(secs) => Some(epoch_to_system(secs)),
        None => None,
    }
}

/// Whether a method that was blocked at `since`, with this many failures in a row, counts as
/// permanently blocked: the block is no older than `block_ttl` and not in the future, and there
/// were enough failures.
pub open spec fn is_blocked(
    since: Option<SystemTime>,
    failures: int,
    block_ttl: Duration,
    now: SystemTime,
) -> bool {
    match since {
        Some(t) => 0 <= now.at() - t.at() <= block_ttl.nanos && failures >= BLOCK_THRESHOLD,
        None => false,
    }
}

/// Whether a block still counts.
fn still_blocked(since: SystemTime, block_ttl: Duration, now: SystemTime) -> (r: bool)
    ensures
        r == (0 <= now.at() - since.at() <= block_ttl.nanos),
{
    match now.duration_since(since) {
        Some(d) => d.nanos <= block_ttl.nanos,
        None => false,
    }
}

/// A run of failures, as far as an entry can count it.
pub open spec fn saturated(failures: i64) -> u8 {
    if failures < 0 {
        0
    } else if failures > u8::MAX {
        u8::MAX
    } else {
        failures as u8
    }
}

fn saturate(failures: i64) -> (r: u8)
    ensures
        r == saturated(failures),
{
    if failures < 0 {
        0
    } else if failures > 255 {
        255
    } else {
        failures as u8
    }
}

impl ScoreRow {
    /// The entry that a row stands for.
    pub open spec fn as_entry(self) -> ScoreEntry {
        ScoreEntry {
            successes: self.successes as u32,
            failures: self.failures as u32,
            last_success_at: time_of(self.last_success_at),
            last_failure_at: time_of(self.last_failure_at),
            median_latency_ms: self.median_latency_ms as u32,
            blocked_at: time_of(self.blocked_at),
            consecutive_failures: saturated(self.consecutive_failures),
        }
    }

    /// Whether all the times of a row lie after the epoch.
    pub open spec fn is_dated(self) -> bool {
        after_epoch(self.last_success_at) && after_epoch(self.last_failure_at) && after_epoch(
            self.blocked_at,
        )
    }

    /// Whether the counters of a row fit an entry.
    pub open spec fn fits_entry(self) -> bool {
        &&& 0 <= self.successes <= u32::MAX
        &&& 0 <= self.failures <= u32::MAX
        &&& 0 <= self.median_latency_ms <= u32::MAX
        &&& 0 <= self.consecutive_failures <= u8::MAX
    }

    /// Get a score entry. A run of failures that does not fit counts as the longest one that does;
    /// of another counter that does not fit the low bits are left.
    pub fn to_entry(&self) -> (r: ScoreEntry)
        requires
            self.is_dated(),
        ensures
            r == self.as_entry(),
            self.fits_entry() ==> {
                &&& r.successes == self.successes
                &&& r.failures == self.failures
                &&& r.median_latency_ms == self.median_latency_ms
                &&& r.consecutive_failures == self.consecutive_failures
            },
    {
        ScoreEntry {
            successes: self.successes as u32,
            failures: self.failures as u32,
            last_success_at: read_time(self.last_success_at),
            last_failure_at: read_time(self.last_failure_at),
            median_latency_ms: self.median_latency_ms as u32,
            blocked_at: read_time(self.blocked_at),
            consecutive_failures: saturate(self.consecutive_failures),
        }
    }

    /// Check if a method is permanently blocked.
    ///
    /// Blocked if:
    /// - `blocked_at` is set AND
    /// - `consecutive_failures >= 5` AND
    /// - `blocked_at` is within `block_ttl` from now
    pub fn permanently_blocked(&self, block_ttl: Duration, now: SystemTime) -> (r: bool)
        requires
            after_epoch(self.blocked_at),
        ensures
            r == is_blocked(
                time_of(self.blocked_at),
                self.consecutive_failures as int,
                block_ttl,
                now,
            ),
    {
        match self.blocked_at {
            Some(secs) => still_blocked(epoch_to_system(secs), block_ttl, now)
                && self.consecutive_failures >= 5,
            None => false,
        }
    }

    /// When a row was last written: the later of its last success and its last failure, the epoch
    /// where there was neither.
    pub open spec fn touched(self) -> i64 {
        let s = match self.last_success_at {
            Some(t) => t,
            None => 0,
        };
        let f = match self.last_failure_at {
            Some(t) => t,
            None => 0,
        };
        if s >= f {
            s
        } else {
            f
        }
    }

    /// When a row was last written.
    pub fn last_touched(&self) -> (r: i64)
        ensures
            r == self.touched(),
    {
        let s: i64 = match self.last_success_at {
            Some(t) => t,
            None => 0,
        };
        let f: i64 = match self.last_failure_at {
            Some(t) => t,
            None => 0,
        };
        if s >= f {
            s
        } else {
            f
        }
    }
}

/// Whether `t` is when the last of some rows was written: the epoch, where there are none.
pub open spec fn is_last_touch(rows: Seq<ScoreRow>, t: i64) -> bool {
    &&& forall|i: int| 0 <= i < rows.len() ==> (#[trigger] rows[i]).touched() <= t
    &&& if rows.len() == 0 {
        t == 0
    } else {
        exists|i: int| 0 <= i < rows.len() && (#[trigger] rows[i]).touched() == t
    }
}

/// When a fingerprint was last written: the latest time over all its rows.
pub fn fingerprint_touched(rows: &[ScoreRow]) -> (r: i64)
    ensures
        is_last_touch(rows@, r),
{
    if rows.len() == 0 {
        return 0;
    }
    let mut latest: i64 = rows[0].last_touched();
    assert(rows@[0].touched() == latest);
    let mut i: usize = 1;
    while i < rows.len()
        invariant
            1 <= i <= rows@.len(),
            forall|k: int| 0 <= k < i ==> (#[trigger] rows@[k]).touched() <= latest,
            exists|k: int| 0 <= k < i && (#[trigger] rows@[k]).touched() == latest,
        decreases rows@.len() - i,
    {
        let t: i64 = rows[i].last_touched();
        if t > latest {
            latest = t;
            assert(rows@[i as int].touched() == latest);
        }
        i = i + 1;
    }
    latest
}

/// The method that is stored under a number.
pub open spec fn method_numbered(code: u8) -> Option<MethodId> {
    if code == 0 {
        Some(MethodId::Obfs4)
    } else if code == 1 {
        Some(MethodId::WebTunnel)
    } else if code == 2 {
        Some(MethodId::Masque)
    } else if code == 3 {
        Some(MethodId::VeilFront)
    } else {
        None
    }
}

/// The method that is stored under a number.
pub fn method_from_code(code: u8) -> (r: Option<MethodId>)
    ensures
        r == method_numbered(code),
{
    match code {
        0 => Some(MethodId::Obfs4),
        1 => Some(MethodId::WebTunnel),
        2 => Some(MethodId::Masque),
        3 => Some(MethodId::VeilFront),
        _ => None,
    }
}

/// A method is found again under the number it is stored under.
pub proof fn law_a_method_is_found_under_its_number(method: MethodId)
    ensures
        method_numbered(method.number() as u8) == Some(method),
{
}

/// The rows of known methods, as entries.
pub open spec fn entries_in(rows: Seq<(i64, ScoreRow)>) -> Seq<(MethodId, ScoreEntry)>
    decreases rows.len(),
{
    if rows.len() == 0 {
        Seq::empty()
    } else {
        let before = entries_in(rows.drop_last());
        match method_numbered(rows.last().0 as u8) {
            Some(method) => before.push((method, rows.last().1.as_entry())),
            None => before,
        }
    }
}

/// Get all scores for a fingerprint from its rows, each with the number of its method. Rows of
/// unknown methods are left out.
pub fn all_for_fingerprint(rows: &[(i64, ScoreRow)]) -> (r: Vec<(MethodId, ScoreEntry)>)
    requires
        forall|i: int| 0 <= i < rows@.len() ==> (#[trigger] rows@[i]).1.is_dated(),
    ensures
        r@ == entries_in(rows@),
{
    let mut out: Vec<(MethodId, ScoreEntry)> = Vec::new();
    let mut i: usize = 0;
    while i < rows.len()
        invariant
            i <= rows@.len(),
            forall|k: int| 0 <= k < rows@.len() ==> (#[trigger] rows@[k]).1.is_dated(),
            out@ == entries_in(rows@.take(i as int)),
        decreases rows@.len() - i,
    {
        assert(rows@.take(i + 1).drop_last() =~= rows@.take(i as int));
        let (code, row): (i64, ScoreRow) = rows[i];
        match method_from_code(code as u8) {
            Some(method) => {
                out.push((method, row.to_entry()));
            },
            None => {},
        }
        i = i + 1;
    }
    assert(rows@.take(i as int) =~= rows@);
    out
}

/// How many fingerprints are too many.
pub open spec fn surplus(count: int, max: int) -> int {
    if count <= max {
        0
    } else {
        count - max
    }
}

/// One fingerprint, by its place in a list, and when it was last written.
#[derive(Debug, Clone, Copy)]
pub struct Activity {
    pub index: usize,
    pub touched: i64,
}

impl Keyed for Activity {
    open spec fn key(&self) -> int {
        self.touched as int
    }

    fn not_after(&self, other: &Self) -> (r: bool) {
        self.touched <= other.touched
    }
}

/// A list of times, each with its place.
pub open spec fn placed(touched: Seq<i64>) -> Seq<Activity> {
    Seq::new(touched.len(), |i: int| Activity { index: i as usize, touched: touched[i] })
}

/// Prune oldest fingerprints if over the limit: which of them to delete, by their places in a list
/// of the times they were last written. Of equally old ones the first go first.
pub fn prune(touched: &[i64], max_fingerprints: usize) -> (r: Vec<usize>)
    ensures
        r@.len() == surplus(touched@.len() as int, max_fingerprints as int),
        exists|sorted: Seq<Activity>|
            crate::trace::sorting::sorts(placed(touched@), sorted) && r@ == Seq::new(
                r@.len(),
                |i: int| sorted[i].index,
            ),
{
    let mut all: Vec<Activity> = Vec::new();
    let mut i: usize = 0;
    while i < touched.len()
        invariant
            i <= touched@.len(),
            all@ =~= placed(touched@).take(i as int),
        decreases touched@.len() - i,
    {
        all.push(Activity { index: i, touched: touched[i] });
        i = i + 1;
    }
    assert(all@ =~= placed(touched@));
    let sorted: Vec<Activity> = sort_stably(all.as_slice());
    let n: usize = if touched.len() <= max_fingerprints {
        0
    } else {
        touched.len() - max_fingerprints
    };
    let mut out: Vec<usize> = Vec::new();
    let mut k: usize = 0;
    while k < n
        invariant
            k <= n <= sorted@.len(),
            out@ =~= Seq::new(k as nat, |i: int| sorted@[i].index),
        decreases n - k,
    {
        out.push(sorted[k].index);
        k = k + 1;
    }
    assert(crate::trace::sorting::sorts(placed(touched@), sorted@));
    assert(out@ =~= Seq::new(out@.len(), |i: int| sorted@[i].index));
    out
}

/// After a prune no more fingerprints are left than the limit allows.
pub proof fn law_pruning_keeps_the_limit(count: int, max: int)
    requires
        count >= 0,
        max >= 0,
    ensures
        count - surplus(count, max) <= max,
        0 <= surplus(count, max) <= count,
{
}

/// The oldest fingerprints are the ones that go: they are told apart by their places, and none of
/// them was written later than one that stays.
pub proof fn law_the_oldest_go_first(touched: Seq<i64>, sorted: Seq<Activity>, n: int)
    requires
        crate::trace::sorting::sorts(placed(touched), sorted),
        touched.len() <= usize::MAX,
        0 <= n <= touched.len(),
    ensures
        forall|i: int|
            0 <= i < touched.len() ==> (#[trigger] sorted[i]).index < touched.len()
                && sorted[i].touched == touched[sorted[i].index as int],
        forall|i: int, j: int|
            0 <= i < j < touched.len() ==> (#[trigger] sorted[i]).index != (
            #[trigger] sorted[j]).index,
        forall|i: int, j: int|
            0 <= i < n <= j < touched.len() ==> touched[(#[trigger] sorted[i]).index as int]
                <= touched[(#[trigger] sorted[j]).index as int],
{
    let all = placed(touched);
    broadcast use vstd::seq_lib::group_to_multiset_ensures;

    assert forall|i: int| 0 <= i < touched.len() implies (#[trigger] sorted[i]).index
        < touched.len() && sorted[i].touched == touched[sorted[i].index as int] by {
        assert(sorted.to_multiset().count(sorted[i]) > 0) by {
            assert(sorted.contains(sorted[i]));
        }
        assert(all.contains(sorted[i]));
    }
    assert forall|i: int, j: int| 0 <= i < j < touched.len() implies (#[trigger] sorted[i]).index
        != (#[trigger] sorted[j]).index by {
        assert(all.no_duplicates());
        all.lemma_multiset_has_no_duplicates();
        if sorted[i].index == sorted[j].index {
            assert(sorted[i] == sorted[j]);
            sorted.lemma_multiset_has_no_duplicates_conv();
            assert(sorted.no_duplicates());
        }
    }
    assert forall|i: int, j: int| 0 <= i < n <= j < touched.len() implies touched[(
    #[trigger] sorted[i]).index as int] <= touched[(#[trigger] sorted[j]).index as int] by {
        assert(sorted[i].key() <= sorted[j].key());
    }
}

/// Of fingerprints that were last written at the same time, the one that is listed first goes
/// first.
pub proof fn law_of_equally_old_ones_the_first_go_first(
    touched: Seq<i64>,
    sorted: Seq<Activity>,
    i: int,
    j: int,
)
    requires
        crate::trace::sorting::sorts(placed(touched), sorted),
        touched.len() <= usize::MAX,
        0 <= i < j < touched.len(),
        sorted[i].touched == sorted[j].touched,
    ensures
        sorted[i].index < sorted[j].index,
{
    crate::trace::sorting::law_sorting_keeps_the_order_of_equal_keys(
        placed(touched),
        sorted,
        i,
        j,
    );
    let all = placed(touched);
    let (p, q) = choose|p: int, q: int|
        #![trigger all[p], all[q]]
        0 <= p < q < all.len() && all[p] == sorted[i] && all[q] == sorted[j];
    assert(all[p].index == p && all[q].index == q);
}

/// Cached score lookup that implements `ScoreLookup` for the pure FSM: all the scores of one
/// network, held in memory.
pub struct CachedScoreLookup {
    fingerprint: NetworkFingerprint,
    entries: Vec<(MethodId, ScoreEntry)>,
}

/// The last entry for a method, if there is one.
pub open spec fn last_entry(entries: Seq<(MethodId, ScoreEntry)>, method: MethodId) -> Option<
    ScoreEntry,
>
    decreases entries.len(),
{
    if entries.len() == 0 {
        None
    } else if entries.last().0 == method {
        Some(entries.last().1)
    } else {
        last_entry(entries.drop_last(), method)
    }
}

/// Whether an entry counts as permanently blocked.
pub open spec fn entry_blocked(
    entry: Option<ScoreEntry>,
    block_ttl: Duration,
    now: SystemTime,
) -> bool {
    match entry {
        Some(e) => is_blocked(e.blocked_at, e.consecutive_failures as int, block_ttl, now),
        None => false,
    }
}

impl CachedScoreLookup {
    /// The entries that are held, in the order they came.
    pub closed spec fn held(&self) -> Seq<(MethodId, ScoreEntry)> {
        self.entries@
    }

    /// The network the entries are of.
    pub closed spec fn network(&self) -> Seq<u8> {
        self.fingerprint@
    }

    /// Build a cached lookup for a specific fingerprint from all its scores. Of two scores for one
    /// method the later one counts.
    pub fn build(fingerprint: &NetworkFingerprint, all: Vec<(MethodId, ScoreEntry)>) -> (r: Self)
        ensures
            r.held() == all@,
            r.network() == fingerprint@,
    {
        CachedScoreLookup { fingerprint: fingerprint.clone(), entries: all }
    }

    fn find(&self, method: MethodId) -> (r: Option<ScoreEntry>)
        ensures
            r == last_entry(self.held(), method),
    {
        let mut n: usize = self.entries.len();
        assert(self.entries@.take(n as int) =~= self.entries@);
        while n > 0
            invariant
                n <= self.entries@.len(),
                last_entry(self.entries@.take(n as int), method) == last_entry(
                    self.held(),
                    method,
                ),
            decreases n,
        {
            let (m, entry): (MethodId, ScoreEntry) = self.entries[n - 1];
            assert(self.entries@.take(n as int).drop_last() =~= self.entries@.take(n - 1));
            if m == method {
                return Some(entry);
            }
            n = n - 1;
        }
        None
    }

    /// Pre-compute blocked status for all methods.
    pub fn blocked_for(&self, method: MethodId, block_ttl: Duration, now: SystemTime) -> (r: bool)
        ensures
            r == entry_blocked(last_entry(self.held(), method), block_ttl, now),
    {
        match self.find(method) {
            Some(entry) => match entry.blocked_at {
                Some(since) => still_blocked(since, block_ttl, now) && entry.consecutive_failures
                    >= 5,
                None => false,
            },
            None => false,
        }
    }
}

impl ScoreLookup for CachedScoreLookup {
    open spec fn entry(&self, fingerprint: Seq<u8>, method: MethodId) -> Option<ScoreEntry> {
        last_entry(self.held(), method)
    }

    open spec fn blocked(
        &self,
        fingerprint: Seq<u8>,
        method: MethodId,
        block_ttl: Duration,
        now: SystemTime,
    ) -> bool {
        entry_blocked(last_entry(self.held(), method), block_ttl, now)
    }

    fn get(&self, fingerprint: &NetworkFingerprint, method: MethodId) -> (r: Option<ScoreEntry>) {
        self.find(method)
    }

    fn is_permanently_blocked(
        &self,
        fingerprint: &NetworkFingerprint,
        method: MethodId,
        block_ttl: Duration,
        now: SystemTime,
    ) -> (r: bool) {
        self.blocked_for(method, block_ttl, now)
    }
}

/// The stored row and the cached entry agree on what is blocked, however many failures in a row
/// there were.
pub proof fn law_cache_and_row_agree_on_blocks(row: ScoreRow, block_ttl: Duration, now: SystemTime)
    ensures
        entry_blocked(Some(row.as_entry()), block_ttl, now) == is_blocked(
            time_of(row.blocked_at),
            row.consecutive_failures as int,
            block_ttl,
            now,
        ),
{
}

/// A success wipes the slate: whatever the row held, the method is not blocked after it and has
/// no failures in a row; the counts of the past stay.
pub proof fn law_a_success_clears_the_block(
    row: Option<ScoreRow>,
    latency_ms: u32,
    now: i64,
    block_ttl: Duration,
    at: SystemTime,
)
    requires
        has_room(row, ScoreOutcome::Success { latency_ms }),
    ensures
        ({
            let after = recorded(row, ScoreOutcome::Success { latency_ms }, now);
            &&& !is_blocked(
                time_of(after.blocked_at),
                after.consecutive_failures as int,
                block_ttl,
                at,
            )
            &&& after.consecutive_failures == 0
            &&& after.successes == row_or_blank(row).successes + 1
            &&& after.failures == row_or_blank(row).failures
        }),
{
}

/// The row after a list of outcomes, each at its time.
pub open spec fn recorded_all(row: Option<ScoreRow>, outcomes: Seq<(ScoreOutcome, i64)>) -> Option<
    ScoreRow,
>
    decreases outcomes.len(),
{
    if outcomes.len() == 0 {
        row
    } else {
        Some(
            recorded(
                recorded_all(row, outcomes.drop_last()),
                outcomes.last().0,
                outcomes.last().1,
            ),
        )
    }
}

/// Five hard blocks in a row block a method for good, until the time to live is over: from the
/// last of them on, up to and including the end of that time.
pub proof fn law_five_hard_blocks_block_a_method(
    row: Option<ScoreRow>,
    outcomes: Seq<(ScoreOutcome, i64)>,
    block_ttl: Duration,
    now: SystemTime,
)
    requires
        row_or_blank(row).consecutive_failures >= 0,
        row_or_blank(row).consecutive_failures + outcomes.len() <= i64::MAX,
        outcomes.len() >= 5,
        forall|i: int|
            0 <= i < outcomes.len() ==> ((#[trigger] outcomes[i]).0 matches ScoreOutcome::Failure {
                reason,
            } && is_hard_block(reason)),
        0 <= now.at() - outcomes.last().1 * crate::clock::NANOS <= block_ttl.nanos,
    ensures
        ({
            let after = recorded_all(row, outcomes)->0;
            is_blocked(
                time_of(after.blocked_at),
                after.consecutive_failures as int,
                block_ttl,
                now,
            )
        }),
{
    lemma_failures_add_up(row, outcomes);
    lemma_failures_add_up(row, outcomes.drop_last());
}

proof fn lemma_failures_add_up(row: Option<ScoreRow>, outcomes: Seq<(ScoreOutcome, i64)>)
    requires
        row_or_blank(row).consecutive_failures >= 0,
        row_or_blank(row).consecutive_failures + outcomes.len() <= i64::MAX,
        forall|i: int| 0 <= i < outcomes.len() ==> (#[trigger] outcomes[i]).0 is Failure,
    ensures
        row_or_blank(recorded_all(row, outcomes)).consecutive_failures == row_or_blank(
            row,
        ).consecutive_failures + outcomes.len(),
    decreases outcomes.len(),
{
    if outcomes.len() > 0 {
        let front = outcomes.drop_last();
        assert forall|i: int| 0 <= i < front.len() implies (#[trigger] front[i]).0 is Failure by {
            assert(front[i] == outcomes[i]);
        }
        lemma_failures_add_up(row, front);
        assert(outcomes[outcomes.len() - 1].0 is Failure);
    }
}

/// What a failure of any reason changes, and what it leaves alone: one failure more, one more in
/// a row, and the date of the last one. Successes, the last of them and the latency stay as they
/// were. A block is dated for the two reasons that mean one; for any other it stays as it was.
pub proof fn law_a_failure_takes_nothing_away(
    row: ScoreRow,
    reason: ProbeFailureReason,
    now: i64,
)
    requires
        row.failures < i64::MAX,
        row.consecutive_failures < i64::MAX,
    ensures
        ({
            let after = recorded(Some(row), ScoreOutcome::Failure { reason }, now);
            &&& after.successes == row.successes
            &&& after.last_success_at == row.last_success_at
            &&& after.median_latency_ms == row.median_latency_ms
            &&& after.failures == row.failures + 1
            &&& after.consecutive_failures == row.consecutive_failures + 1
            &&& after.last_failure_at == Some(now)
            &&& reason == ProbeFailureReason::FingerprintBlocked || reason
                == ProbeFailureReason::WebTunnelDecoyResponse ==> after.blocked_at == Some(now)
            &&& reason != ProbeFailureReason::FingerprintBlocked && reason
                != ProbeFailureReason::WebTunnelDecoyResponse ==> after.blocked_at
                == row.blocked_at
        }),
{
}

/// What a success changes, and what it leaves alone: one success more and its date, no failures in
/// a row, no block. The failures of the past and the date of the last one stay. The first latency
/// stands for itself; a later one counts three tenths.
pub proof fn law_a_success_keeps_the_failures_of_the_past(row: ScoreRow, latency_ms: u32, now: i64)
    requires
        row.successes < i64::MAX,
        0 <= row.median_latency_ms <= u32::MAX,
    ensures
        ({
            let after = recorded(Some(row), ScoreOutcome::Success { latency_ms }, now);
            &&& after.successes == row.successes + 1
            &&& after.last_success_at == Some(now)
            &&& after.failures == row.failures
            &&& after.last_failure_at == row.last_failure_at
            &&& after.consecutive_failures == 0
            &&& after.blocked_at is None
            &&& row.median_latency_ms == 0 ==> after.median_latency_ms == latency_ms
            &&& row.median_latency_ms > 0 ==> after.median_latency_ms
                == crate::client::average::averaged(
                row.median_latency_ms as nat,
                latency_ms as nat,
            ) as i64
        }),
{
}

/// The first outcome of a method starts from nothing.
pub proof fn law_the_first_outcome_starts_from_nothing(
    latency_ms: u32,
    reason: ProbeFailureReason,
    now: i64,
)
    ensures
        ({
            let after = recorded(None, ScoreOutcome::Success { latency_ms }, now);
            &&& after.successes == 1
            &&& after.failures == 0
            &&& after.last_success_at == Some(now)
            &&& after.last_failure_at is None
            &&& after.median_latency_ms == latency_ms
            &&& after.blocked_at is None
            &&& after.consecutive_failures == 0
        }),
        ({
            let after = recorded(None, ScoreOutcome::Failure { reason }, now);
            &&& after.successes == 0
            &&& after.failures == 1
            &&& after.last_success_at is None
            &&& after.last_failure_at == Some(now)
            &&& after.median_latency_ms == 0
            &&& after.consecutive_failures == 1
            &&& after.blocked_at is Some <==> reason == ProbeFailureReason::FingerprintBlocked
                || reason == ProbeFailureReason::WebTunnelDecoyResponse
        }),
{
}

/// Every outcome is counted once: over any list of outcomes the successes grow by the successes in
/// it and the failures by the failures in it, and what is counted is the whole list.
pub proof fn law_every_outcome_is_counted_once(
    row: ScoreRow,
    outcomes: Seq<(ScoreOutcome, i64)>,
)
    requires
        row.successes + outcomes.len() <= i64::MAX,
        row.failures + outcomes.len() <= i64::MAX,
    ensures
        ({
            let after = row_or_blank(recorded_all(Some(row), outcomes));
            let won = outcomes.filter(|o: (ScoreOutcome, i64)| o.0 is Success).len();
            let lost = outcomes.filter(|o: (ScoreOutcome, i64)| o.0 is Failure).len();
            &&& after.successes == row.successes + won
            &&& after.failures == row.failures + lost
            &&& won + lost == outcomes.len()
        }),
    decreases outcomes.len(),
{
    reveal(Seq::filter);
    if outcomes.len() > 0 {
        law_every_outcome_is_counted_once(row, outcomes.drop_last());
    }
}

/// A method of which nothing is stored has, after any list of outcomes, just the successes and the
/// failures of that list.
pub proof fn law_outcomes_are_all_that_is_counted(outcomes: Seq<(ScoreOutcome, i64)>)
    requires
        0 < outcomes.len() <= i64::MAX,
    ensures
        recorded_all(None, outcomes) matches Some(after) && after.successes == outcomes.filter(
            |o: (ScoreOutcome, i64)| o.0 is Success,
        ).len() && after.failures == outcomes.filter(
            |o: (ScoreOutcome, i64)| o.0 is Failure,
        ).len(),
    decreases outcomes.len(),
{
    reveal_with_fuel(Seq::filter, 2);
    broadcast use Seq::lemma_filter_len;

    let front = outcomes.drop_last();
    if front.len() > 0 {
        law_outcomes_are_all_that_is_counted(front);
    } else {
        assert(recorded_all(None, front) is None);
    }
}

/// The failures in a row are those since the last success: however the list goes on before it, a
/// success and then so many failures leave just those, and no block but theirs.
pub proof fn law_failures_in_a_row_start_at_the_last_success(
    row: Option<ScoreRow>,
    before: Seq<(ScoreOutcome, i64)>,
    success: (ScoreOutcome, i64),
    behind: Seq<(ScoreOutcome, i64)>,
)
    requires
        success.0 is Success,
        forall|i: int| 0 <= i < behind.len() ==> (#[trigger] behind[i]).0 is Failure,
        behind.len() <= i64::MAX,
    ensures
        ({
            let after = row_or_blank(recorded_all(row, before.push(success) + behind));
            &&& after.consecutive_failures == behind.len()
            &&& after.blocked_at is Some ==> exists|i: int|
                0 <= i < behind.len() && ((#[trigger] behind[i]).0 == (ScoreOutcome::Failure {
                    reason: ProbeFailureReason::FingerprintBlocked,
                }) || behind[i].0 == (ScoreOutcome::Failure {
                    reason: ProbeFailureReason::WebTunnelDecoyResponse,
                })) && after.blocked_at == Some(behind[i].1)
        }),
    decreases behind.len(),
{
    let all = before.push(success) + behind;
    if behind.len() == 0 {
        assert(all =~= before.push(success));
        assert(all.drop_last() =~= before);
    } else {
        let rest = behind.drop_last();
        assert forall|i: int| 0 <= i < rest.len() implies (#[trigger] rest[i]).0 is Failure by {
            assert(rest[i] == behind[i]);
        }
        law_failures_in_a_row_start_at_the_last_success(row, before, success, rest);
        assert(all.drop_last() =~= before.push(success) + rest);
        assert(all.last() == behind.last());
        assert(behind[behind.len() - 1].0 is Failure);
        let prior = row_or_blank(recorded_all(row, before.push(success) + rest));
        let after = row_or_blank(recorded_all(row, all));
        if after.blocked_at is Some && after.blocked_at == prior.blocked_at
            && prior.blocked_at is Some {
            let i = choose|i: int|
                0 <= i < rest.len() && ((#[trigger] rest[i]).0 == (ScoreOutcome::Failure {
                    reason: ProbeFailureReason::FingerprintBlocked,
                }) || rest[i].0 == (ScoreOutcome::Failure {
                    reason: ProbeFailureReason::WebTunnelDecoyResponse,
                })) && prior.blocked_at == Some(rest[i].1);
            assert(behind[i] == rest[i]);
        }
    }
}

/// When a block counts: from the moment it is dated until its time to live is over, both included,
/// for a method with five failures in a row or more. Without a date there is none.
pub proof fn law_a_block_counts_for_its_time_to_live(
    since: SystemTime,
    failures: int,
    block_ttl: Duration,
    now: SystemTime,
    entry: ScoreEntry,
)
    ensures
        is_blocked(Some(since), failures, block_ttl, now) <==> failures >= 5 && since.at()
            <= now.at() && now.at() <= since.at() + block_ttl.nanos,
        !is_blocked(None, failures, block_ttl, now),
        !entry_blocked(None, block_ttl, now),
        entry_blocked(Some(entry), block_ttl, now) <==> (entry.blocked_at matches Some(t)
            && entry.consecutive_failures >= 5 && t.at() <= now.at() && now.at() <= t.at()
            + block_ttl.nanos),
{
}

/// An entry says what its row says: the same counts where they fit, a run of failures up to 255,
/// and every date as the second it was stored as.
pub proof fn law_an_entry_says_what_its_row_says(row: ScoreRow, secs: i64)
    ensures
        0 <= row.successes <= u32::MAX ==> row.as_entry().successes == row.successes,
        0 <= row.failures <= u32::MAX ==> row.as_entry().failures == row.failures,
        0 <= row.median_latency_ms <= u32::MAX ==> row.as_entry().median_latency_ms
            == row.median_latency_ms,
        0 <= row.consecutive_failures <= 255 ==> row.as_entry().consecutive_failures
            == row.consecutive_failures,
        row.consecutive_failures > 255 ==> row.as_entry().consecutive_failures == 255,
        row.consecutive_failures < 0 ==> row.as_entry().consecutive_failures == 0,
        row.last_success_at == Some(secs) ==> row.as_entry().last_success_at == Some(
            SystemTime { secs, nanos: 0 },
        ),
        row.last_failure_at == Some(secs) ==> row.as_entry().last_failure_at == Some(
            SystemTime { secs, nanos: 0 },
        ),
        row.blocked_at == Some(secs) ==> row.as_entry().blocked_at == Some(
            SystemTime { secs, nanos: 0 },
        ),
        row.last_success_at is None <==> row.as_entry().last_success_at is None,
        row.last_failure_at is None <==> row.as_entry().last_failure_at is None,
        row.blocked_at is None <==> row.as_entry().blocked_at is None,
{
}

/// A row was last written at its last success or its last failure, whichever came later; a date
/// that is not there counts as the epoch.
pub proof fn law_the_later_of_two_dates_counts(row: ScoreRow)
    ensures
        row.last_success_at matches Some(t) ==> row.touched() >= t,
        row.last_failure_at matches Some(t) ==> row.touched() >= t,
        row.last_success_at is None || row.last_failure_at is None ==> row.touched() >= 0,
        row.last_success_at == Some(row.touched()) || row.last_failure_at == Some(row.touched())
            || (row.touched() == 0 && (row.last_success_at is None || row.last_failure_at is None)),
{
}

/// Every number stands for one method at most, and only the numbers of methods stand for one.
pub proof fn law_a_number_stands_for_its_method_only(code: u8, method: MethodId)
    ensures
        method_numbered(code) == Some(method) <==> code == method.number(),
        method_numbered(code) is Some <==> code < 4,
{
}

/// The rows of a network are read one by one: a row of a known method gives its entry, in its
/// place, and any other row nothing.
pub proof fn law_every_row_of_a_method_is_listed(
    rows: Seq<(i64, ScoreRow)>,
    code: i64,
    row: ScoreRow,
    method: MethodId,
)
    ensures
        entries_in(Seq::empty()) == Seq::<(MethodId, ScoreEntry)>::empty(),
        code == method.number() ==> entries_in(rows.push((code, row))) == entries_in(rows).push(
            (method, row.as_entry()),
        ),
        4 <= code <= 255 ==> entries_in(rows.push((code, row))) == entries_in(rows),
{
    assert(rows.push((code, row)).drop_last() =~= rows);
}

/// The latest score of a method counts: one more score is what is found for its method from then
/// on, and changes nothing for another. Where there is no score nothing is found.
pub proof fn law_the_latest_score_counts(
    entries: Seq<(MethodId, ScoreEntry)>,
    method: MethodId,
    entry: ScoreEntry,
    other: MethodId,
)
    ensures
        last_entry(entries.push((method, entry)), method) == Some(entry),
        other != method ==> last_entry(entries.push((method, entry)), other) == last_entry(
            entries,
            other,
        ),
        last_entry(Seq::empty(), method) is None,
{
    assert(entries.push((method, entry)).drop_last() =~= entries);
}

/// No more fingerprints go than have to: the limit of them stay, or all where there are fewer.
pub proof fn law_no_more_than_the_surplus_goes(count: int, max: int)
    requires
        count >= 0,
        max >= 0,
    ensures
        count <= max ==> surplus(count, max) == 0,
        count > max ==> count - surplus(count, max) == max,
{
}

/// Errors from the scoring subsystem.
#[derive(Debug)]
pub enum ScoringError {
    DbError(String),
}

}
