use veil::client::candidates::{ScoreEntry, ScoreLookup};
use veil::client::fsm::{ProbeFailureReason, ScoreOutcome};
use veil::client::method::{MethodId, NetworkFingerprint};
use veil::client::scoring::{
    all_for_fingerprint, epoch_to_system, fingerprint_touched, method_from_code, prune, record, smooth_latency,
    CachedScoreLookup, ScoreRow, ScoringError,
};
use veil::clock::{Duration, SystemTime};

const HARD: ScoreOutcome =
    ScoreOutcome::Failure { reason: ProbeFailureReason::FingerprintBlocked };
const SOFT: ScoreOutcome = ScoreOutcome::Failure { reason: ProbeFailureReason::Timeout };
const TTL: Duration = Duration { nanos: 100_000_000_000 };

fn after(outcomes: &[(ScoreOutcome, i64)]) -> ScoreRow {
    let mut row = None;
    for (outcome, now) in outcomes {
        row = Some(record(row, *outcome, *now));
    }
    row.unwrap()
}

#[test]
fn latency_is_smoothed_seven_to_three() {
    assert_eq!(smooth_latency(0, 400), 400);
    assert_eq!(smooth_latency(1000, 2000), 1300);
    assert_eq!(smooth_latency(1, 0), 1, "seven tenths are rounded");
    assert_eq!(smooth_latency(45, 0), 31, "seven tenths of 45 fall short of a half in doubles");
    assert_eq!(smooth_latency(5, 0), 4);
    assert_eq!(smooth_latency(u32::MAX, u32::MAX), u32::MAX);
    let row = after(&[
        (ScoreOutcome::Success { latency_ms: 1000 }, 5),
        (ScoreOutcome::Success { latency_ms: 2000 }, 6),
    ]);
    assert_eq!(row.median_latency_ms, 1300);
    assert_eq!((row.successes, row.failures), (2, 0));
    assert_eq!(row.last_success_at, Some(6));
}

/// The average is the one that doubles give, on every side of a half.
#[test]
fn latency_is_smoothed_as_in_doubles() {
    let expected = |old: u32, new: u32| (old as f64 * 0.7 + new as f64 * 0.3).round() as u32;
    for old in 1..400 {
        for new in 0..400 {
            assert_eq!(smooth_latency(old, new), expected(old, new), "{} {}", old, new);
        }
    }
    let mut x: u32 = 12_345;
    for _ in 0..20_000 {
        let old = x;
        x = x.wrapping_mul(1_664_525).wrapping_add(1_013_904_223);
        assert_eq!(smooth_latency(old, x), expected(old, x), "{} {}", old, x);
    }
}

/// A counter that an outcome does not change may be full.
#[test]
fn an_outcome_needs_room_in_its_own_counters_only() {
    let full = ScoreRow { successes: i64::MAX, median_latency_ms: -1, ..after(&[(SOFT, 1)]) };
    assert_eq!(record(Some(full), SOFT, 2).failures, 2);
    let full = ScoreRow {
        failures: i64::MAX,
        consecutive_failures: i64::MAX,
        ..after(&[(SOFT, 1)])
    };
    let row = record(Some(full), ScoreOutcome::Success { latency_ms: 3 }, 2);
    assert_eq!((row.successes, row.consecutive_failures), (1, 0));
}

#[test]
fn failures_are_counted_and_hard_ones_block() {
    let row = after(&[(SOFT, 1), (HARD, 2), (SOFT, 3)]);
    assert_eq!((row.successes, row.failures, row.consecutive_failures), (0, 3, 3));
    assert_eq!(row.last_failure_at, Some(3));
    assert_eq!(row.blocked_at, Some(2), "a soft failure leaves the block as it is");
    let decoy = ScoreOutcome::Failure { reason: ProbeFailureReason::WebTunnelDecoyResponse };
    assert_eq!(after(&[(decoy, 8)]).blocked_at, Some(8));
    assert_eq!(after(&[(SOFT, 8)]).blocked_at, None);
}

#[test]
fn a_success_clears_the_block() {
    let row = after(&[(HARD, 1), (HARD, 2), (ScoreOutcome::Success { latency_ms: 9 }, 3)]);
    assert_eq!((row.blocked_at, row.consecutive_failures), (None, 0));
    assert_eq!((row.successes, row.failures, row.last_failure_at), (1, 2, Some(2)));
}

#[test]
fn five_hard_failures_block_until_the_ttl_is_over() {
    let four = after(&[(HARD, 10); 4]);
    let five = after(&[(HARD, 10); 5]);
    let at = SystemTime::from_unix_secs;
    assert!(!four.permanently_blocked(TTL, at(20)));
    assert!(five.permanently_blocked(TTL, at(10)));
    assert!(five.permanently_blocked(TTL, at(110)));
    assert!(!five.permanently_blocked(TTL, SystemTime { secs: 110, nanos: 1 }));
    assert!(!five.permanently_blocked(TTL, at(9)), "a block to come does not count");
    assert!(!after(&[(SOFT, 10); 5]).permanently_blocked(TTL, at(20)));
}

#[test]
fn an_entry_is_read_off_a_row() {
    let row = ScoreRow {
        successes: 3,
        failures: 4,
        last_success_at: Some(10),
        last_failure_at: None,
        median_latency_ms: 77,
        blocked_at: Some(0),
        consecutive_failures: 2,
    };
    let entry = row.to_entry();
    assert_eq!((entry.successes, entry.failures, entry.median_latency_ms), (3, 4, 77));
    assert_eq!(entry.last_success_at, Some(epoch_to_system(10)));
    assert_eq!(entry.last_failure_at, None);
    assert_eq!(entry.blocked_at, Some(SystemTime { secs: 0, nanos: 0 }));
    assert_eq!(entry.consecutive_failures, 2);
    assert_eq!(row.last_touched(), 10);
}

#[test]
fn every_method_is_found_under_its_number() {
    for method in MethodId::all() {
        assert_eq!(method_from_code(method.code()), Some(*method));
    }
    assert_eq!(method_from_code(4), None);
}

#[test]
fn rows_of_unknown_methods_are_left_out() {
    let row = after(&[(SOFT, 1)]);
    let all = all_for_fingerprint(&[(3, row), (9, row), (0, row)]);
    let methods: Vec<MethodId> = all.iter().map(|e| e.0).collect();
    assert_eq!(methods, vec![MethodId::VeilFront, MethodId::Obfs4]);
    assert_eq!(all[0].1, row.to_entry());
}

#[test]
fn the_oldest_fingerprints_go_first() {
    assert!(prune(&[5, 3, 9], 3).is_empty());
    assert_eq!(prune(&[5, 3, 9, 3, 4], 3), vec![1, 3]);
    assert_eq!(prune(&[5, 3, 9], 0), vec![1, 0, 2]);
}

#[test]
fn the_cache_answers_for_its_network() {
    let fp = NetworkFingerprint::new(vec![1, 2, 3]);
    let blocked = after(&[(HARD, 10); 6]).to_entry();
    let cache = CachedScoreLookup::build(
        &fp,
        vec![
            (MethodId::Obfs4, ScoreEntry::default()),
            (MethodId::WebTunnel, blocked),
            (MethodId::Obfs4, ScoreEntry { successes: 8, ..ScoreEntry::default() }),
        ],
    );
    assert_eq!(cache.get(&fp, MethodId::Obfs4).unwrap().successes, 8, "the later one counts");
    assert!(cache.get(&fp, MethodId::Masque).is_none());
    let now = SystemTime::from_unix_secs(50);
    assert!(cache.blocked_for(MethodId::WebTunnel, TTL, now));
    assert!(cache.is_permanently_blocked(&fp, MethodId::WebTunnel, TTL, now));
    assert!(!cache.is_permanently_blocked(&fp, MethodId::Obfs4, TTL, now));
    assert!(!cache.blocked_for(MethodId::Masque, TTL, now));
    assert!(!cache.blocked_for(MethodId::WebTunnel, TTL, SystemTime::from_unix_secs(111)));
}

#[test]
fn a_store_fails_with_its_text() {
    let ScoringError::DbError(text) = ScoringError::DbError(format!("query failed: {}", 1));
    assert_eq!(text, "query failed: 1");
}

/// A run of failures that an entry cannot count in full still blocks.
#[test]
fn cache_and_row_agree_however_many_failures_there_were() {
    let fp = NetworkFingerprint::default();
    let now = SystemTime::from_unix_secs(20);
    for failures in [0, 4, 5, 255, 256, 257, 1_000_000] {
        let row = ScoreRow { consecutive_failures: failures, ..after(&[(HARD, 10)]) };
        let cache = CachedScoreLookup::build(&fp, vec![(MethodId::Obfs4, row.to_entry())]);
        let blocked = row.permanently_blocked(TTL, now);
        assert_eq!(blocked, failures >= 5);
        assert_eq!(cache.blocked_for(MethodId::Obfs4, TTL, now), blocked, "{} failures", failures);
    }
}

#[test]
fn a_fingerprint_is_as_old_as_its_latest_row() {
    let success = ScoreOutcome::Success { latency_ms: 1 };
    let rows = [after(&[(SOFT, 7)]), after(&[(SOFT, 3), (success, 9)]), after(&[(HARD, 8)])];
    assert_eq!(fingerprint_touched(&rows), 9);
    assert_eq!(fingerprint_touched(&rows[..1]), 7);
    assert_eq!(fingerprint_touched(&[]), 0);
}
