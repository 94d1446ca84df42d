use std::sync::OnceLock;
use veil::client::candidates::{
    compute_score, score_entry, select_probe_candidates, ScoreEntry, ScoreLookup, VeilConfig, POINT,
};
use veil::client::fsm::{
    reduce, ProbeAttempt, ProbeFailureReason, ScoreOutcome, TransportFailureKind, VeilEffect,
    VeilEvent, VeilState,
};
use veil::client::method::{MethodId, MethodSet, NetworkFingerprint};
use veil::clock::{Duration, Instant, SystemTime};

static START: OnceLock<std::time::Instant> = OnceLock::new();

/// The monotonic clock, an hour ahead of the first reading.
fn now() -> Instant {
    let start = START.get_or_init(std::time::Instant::now);
    Instant { nanos: 3_600_000_000_000 + start.elapsed().as_nanos() }
}

fn earlier(t: Instant, secs: u64) -> Instant {
    Instant { nanos: t.nanos - u128::from(secs) * 1_000_000_000 }
}

fn now_sys() -> SystemTime {
    let since = std::time::SystemTime::now().duration_since(std::time::UNIX_EPOCH).unwrap();
    SystemTime { secs: since.as_secs() as i64, nanos: since.subsec_nanos() }
}

fn ago(secs: i64) -> SystemTime {
    let now = now_sys();
    SystemTime { secs: now.secs - secs, nanos: now.nanos }
}

/// No-op score lookup for basic tests.
struct NoScores;
impl ScoreLookup for NoScores {
    fn get(&self, _fp: &NetworkFingerprint, _method: MethodId) -> Option<ScoreEntry> {
        None
    }
    fn is_permanently_blocked(
        &self,
        _fp: &NetworkFingerprint,
        _method: MethodId,
        _ttl: Duration,
        _now: SystemTime,
    ) -> bool {
        false
    }
}

// Idle transitions

#[test]
fn idle_start_goes_to_probing() {
    let state = VeilState::Idle;
    let (new_state, effects) = reduce(
        state,
        VeilEvent::Start {
            relay: "relay:443".into(),
            bundle: "cert=abc".into(),
            fingerprint: NetworkFingerprint::default(),
            allowed_methods: MethodSet::all(),
        },
        &NoScores,
        &VeilConfig::default(),
        now(),
        now_sys(),
    );

    match new_state {
        VeilState::Probing { ref candidates, .. } => {
            assert_eq!(candidates.len(), 2); // top_k=2 by default
        }
        _ => panic!("expected Probing, got {:?}", new_state),
    }

    assert_eq!(effects.len(), 1);
    match &effects[0] {
        VeilEffect::StartProbes {
            methods,
            relay,
            bundle,
        } => {
            assert_eq!(relay, "relay:443");
            assert_eq!(bundle, "cert=abc");
            assert_eq!(methods.len(), 2);
        }
        _ => panic!("expected StartProbes effect"),
    }
}

#[test]
fn idle_stop_stays_idle() {
    let (new_state, effects) = reduce(
        VeilState::Idle,
        VeilEvent::Stop,
        &NoScores,
        &VeilConfig::default(),
        now(),
        now_sys(),
    );
    assert!(matches!(new_state, VeilState::Idle));
    assert!(effects.is_empty());
}

// Probing transitions

#[test]
fn probing_probe_succeeded_goes_to_active() {
    let candidates = vec![MethodId::Obfs4, MethodId::WebTunnel];
    let attempts: Vec<(MethodId, ProbeAttempt)> = candidates
        .iter()
        .map(|m| (*m, ProbeAttempt { started_at: now() }))
        .collect();
    let state = VeilState::Probing {
        candidates,
        attempts,
        started_at: now(),
    };

    let (new_state, effects) = reduce(
        state,
        VeilEvent::ProbeSucceeded {
            method: MethodId::Obfs4,
            port: 12345,
            latency_ms: 500,
        },
        &NoScores,
        &VeilConfig::default(),
        now(),
        now_sys(),
    );

    match new_state {
        VeilState::Active { method, port, .. } => {
            assert_eq!(method, MethodId::Obfs4);
            assert_eq!(port, 12345);
        }
        _ => panic!("expected Active, got {:?}", new_state),
    }

    // Should emit CancelOtherProbes + RecordScore
    assert_eq!(effects.len(), 2);
    assert!(
        matches!(&effects[0], VeilEffect::CancelOtherProbes { winner } if *winner == MethodId::Obfs4)
    );
}

#[test]
fn probing_probe_failed_removes_candidate() {
    let candidates = vec![MethodId::Obfs4, MethodId::WebTunnel];
    let attempts: Vec<(MethodId, ProbeAttempt)> = candidates
        .iter()
        .map(|m| (*m, ProbeAttempt { started_at: now() }))
        .collect();
    let state = VeilState::Probing {
        candidates: candidates.clone(),
        attempts,
        started_at: now(),
    };

    let (new_state, _) = reduce(
        state,
        VeilEvent::ProbeFailed {
            method: MethodId::WebTunnel,
            reason: ProbeFailureReason::FingerprintBlocked,
        },
        &NoScores,
        &VeilConfig::default(),
        now(),
        now_sys(),
    );

    match new_state {
        VeilState::Probing { ref candidates, .. } => {
            assert_eq!(candidates.len(), 1);
            assert_eq!(candidates[0], MethodId::Obfs4);
        }
        _ => panic!("expected Probing, got {:?}", new_state),
    }
}

#[test]
fn probing_last_candidate_failed_goes_to_cooldown() {
    let candidates = vec![MethodId::Obfs4];
    let attempts: Vec<(MethodId, ProbeAttempt)> = candidates
        .iter()
        .map(|m| (*m, ProbeAttempt { started_at: now() }))
        .collect();
    let state = VeilState::Probing {
        candidates,
        attempts,
        started_at: now(),
    };

    let (new_state, effects) = reduce(
        state,
        VeilEvent::ProbeFailed {
            method: MethodId::Obfs4,
            reason: ProbeFailureReason::ConnectionFailed,
        },
        &NoScores,
        &VeilConfig::default(),
        now(),
        now_sys(),
    );

    assert!(matches!(new_state, VeilState::Cooldown { .. }));
    assert!(
        effects
            .iter()
            .any(|e| matches!(e, VeilEffect::ScheduleCooldown { .. }))
    );
}

#[test]
fn probing_all_probes_failed_goes_to_cooldown() {
    let candidates = vec![MethodId::Obfs4, MethodId::WebTunnel];
    let attempts: Vec<(MethodId, ProbeAttempt)> = candidates
        .iter()
        .map(|m| (*m, ProbeAttempt { started_at: now() }))
        .collect();
    let state = VeilState::Probing {
        candidates,
        attempts,
        started_at: now(),
    };

    let (new_state, effects) = reduce(
        state,
        VeilEvent::AllProbesFailed,
        &NoScores,
        &VeilConfig::default(),
        now(),
        now_sys(),
    );

    assert!(matches!(new_state, VeilState::Cooldown { .. }));
    assert!(
        effects
            .iter()
            .any(|e| matches!(e, VeilEffect::ScheduleCooldown { .. }))
    );
}

#[test]
fn probing_stop_goes_to_idle() {
    let candidates = vec![MethodId::Obfs4, MethodId::WebTunnel];
    let attempts: Vec<(MethodId, ProbeAttempt)> = candidates
        .iter()
        .map(|m| (*m, ProbeAttempt { started_at: now() }))
        .collect();
    let state = VeilState::Probing {
        candidates,
        attempts,
        started_at: now(),
    };

    let (new_state, effects) = reduce(
        state,
        VeilEvent::Stop,
        &NoScores,
        &VeilConfig::default(),
        now(),
        now_sys(),
    );
    assert!(matches!(new_state, VeilState::Idle));
    assert!(effects.iter().any(|e| matches!(e, VeilEffect::StopActive)));
}

// Active transitions

#[test]
fn active_stream_timeout_increments_failures() {
    let state = VeilState::Active {
        method: MethodId::Obfs4,
        port: 12345,
        started_at: now(),
        consecutive_failures: 0,
    };

    let (new_state, _) = reduce(
        state.clone(),
        VeilEvent::TransportFailure {
            kind: TransportFailureKind::StreamTimeout,
        },
        &NoScores,
        &VeilConfig::default(),
        now(),
        now_sys(),
    );

    match new_state {
        VeilState::Active {
            consecutive_failures,
            ..
        } => {
            assert_eq!(consecutive_failures, 1);
        }
        _ => panic!("expected Active, got {:?}", new_state),
    }
}

#[test]
fn active_fingerprint_blocked_immediate_rotation() {
    let state = VeilState::Active {
        method: MethodId::Obfs4,
        port: 12345,
        started_at: now(),
        consecutive_failures: 0,
    };

    let (new_state, _) = reduce(
        state,
        VeilEvent::TransportFailure {
            kind: TransportFailureKind::FingerprintBlocked,
        },
        &NoScores,
        &VeilConfig::default(),
        now(),
        now_sys(),
    );

    assert!(matches!(
        new_state,
        VeilState::Degraded {
            consecutive_failures: u8::MAX,
            ..
        }
    ));
}

#[test]
fn active_tls_cert_problem_no_state_change() {
    let state = VeilState::Active {
        method: MethodId::Obfs4,
        port: 12345,
        started_at: now(),
        consecutive_failures: 0,
    };

    let (new_state, effects) = reduce(
        state.clone(),
        VeilEvent::TransportFailure {
            kind: TransportFailureKind::TlsCertProblem,
        },
        &NoScores,
        &VeilConfig::default(),
        now(),
        now_sys(),
    );

    assert!(matches!(new_state, VeilState::Active { .. }));
    assert!(effects.is_empty());
}

#[test]
fn active_degraded_threshold_reached() {
    let cfg = VeilConfig {
        degraded_threshold: 2,
        ..VeilConfig::default()
    };
    let state = VeilState::Active {
        method: MethodId::Obfs4,
        port: 12345,
        started_at: now(),
        consecutive_failures: 1,
    };

    let (new_state, _) = reduce(
        state,
        VeilEvent::TransportFailure {
            kind: TransportFailureKind::StreamTimeout,
        },
        &NoScores,
        &cfg,
        now(),
        now_sys(),
    );

    assert!(matches!(new_state, VeilState::Degraded { .. }));
}

#[test]
fn active_stop_goes_to_idle() {
    let state = VeilState::Active {
        method: MethodId::Obfs4,
        port: 12345,
        started_at: now(),
        consecutive_failures: 0,
    };

    let (new_state, effects) = reduce(
        state,
        VeilEvent::Stop,
        &NoScores,
        &VeilConfig::default(),
        now(),
        now_sys(),
    );
    assert!(matches!(new_state, VeilState::Idle));
    assert!(effects.iter().any(|e| matches!(e, VeilEffect::StopActive)));
}

// Degraded transitions

#[test]
fn degraded_more_failures_idle() {
    let state = VeilState::Degraded {
        method: MethodId::Obfs4,
        port: 12345,
        consecutive_failures: 2,
    };

    let (new_state, effects) = reduce(
        state,
        VeilEvent::TransportFailure {
            kind: TransportFailureKind::StreamTimeout,
        },
        &NoScores,
        &VeilConfig::default(),
        now(),
        now_sys(),
    );

    // Threshold reached (2 >= 2) -> goes to Idle with StopActive.
    assert!(matches!(new_state, VeilState::Idle));
    assert!(effects.iter().any(|e| matches!(e, VeilEffect::StopActive)));
}

// Cooldown transitions

#[test]
fn cooldown_elapsed_goes_to_idle() {
    let until = earlier(now(), 1); // already elapsed
    let state = VeilState::Cooldown { until };

    let (new_state, _) = reduce(
        state,
        VeilEvent::CooldownElapsed,
        &NoScores,
        &VeilConfig::default(),
        now(),
        now_sys(),
    );

    assert!(matches!(new_state, VeilState::Idle));
}

#[test]
fn cooldown_not_yet_elapsed_stays_cooldown() {
    let until = now().plus(Duration::from_secs(30));
    let state = VeilState::Cooldown { until };

    let (new_state, _) = reduce(
        state.clone(),
        VeilEvent::CooldownElapsed,
        &NoScores,
        &VeilConfig::default(),
        now(),
        now_sys(),
    );

    assert!(matches!(new_state, VeilState::Cooldown { .. }));
}

#[test]
fn cooldown_stop_goes_to_idle() {
    let until = now().plus(Duration::from_secs(30));
    let state = VeilState::Cooldown { until };

    let (new_state, _) = reduce(
        state,
        VeilEvent::Stop,
        &NoScores,
        &VeilConfig::default(),
        now(),
        now_sys(),
    );
    assert!(matches!(new_state, VeilState::Idle));
}

// Candidate selection

#[test]
fn select_candidates_returns_top_k() {
    struct MockScores;
    impl ScoreLookup for MockScores {
        fn get(&self, _fp: &NetworkFingerprint, method: MethodId) -> Option<ScoreEntry> {
            match method {
                MethodId::Obfs4 => Some(ScoreEntry {
                    successes: 10,
                    failures: 1,
                    last_success_at: Some(ago(60)),
                    last_failure_at: None,
                    median_latency_ms: 800,
                    blocked_at: None,
                    consecutive_failures: 0,
                }),
                MethodId::WebTunnel => Some(ScoreEntry {
                    successes: 2,
                    failures: 5,
                    last_success_at: None,
                    last_failure_at: Some(ago(3600)),
                    median_latency_ms: 2000,
                    blocked_at: None,
                    consecutive_failures: 3,
                }),
                _ => None,
            }
        }
        fn is_permanently_blocked(
            &self,
            _fp: &NetworkFingerprint,
            _method: MethodId,
            _ttl: Duration,
            _now: SystemTime,
        ) -> bool {
            false
        }
    }

    let cfg = VeilConfig {
        top_k_probes: 2,
        ..VeilConfig::default()
    };
    let candidates = select_probe_candidates(
        &NetworkFingerprint::default(),
        MethodSet::all(),
        &MockScores,
        &cfg,
        now_sys(),
    );

    assert_eq!(candidates.len(), 2);
    // Obfs4 should be first (higher score).
    assert_eq!(candidates[0], MethodId::Obfs4);
}

#[test]
fn select_candidates_skips_permanently_blocked() {
    struct BlockedScores;
    impl ScoreLookup for BlockedScores {
        fn get(&self, _fp: &NetworkFingerprint, method: MethodId) -> Option<ScoreEntry> {
            match method {
                MethodId::WebTunnel => Some(ScoreEntry {
                    successes: 0,
                    failures: 10,
                    last_success_at: None,
                    last_failure_at: Some(now_sys()),
                    median_latency_ms: 0,
                    blocked_at: Some(ago(3600)),
                    consecutive_failures: 10,
                }),
                _ => None,
            }
        }
        fn is_permanently_blocked(
            &self,
            _fp: &NetworkFingerprint,
            method: MethodId,
            _ttl: Duration,
            _now: SystemTime,
        ) -> bool {
            method == MethodId::WebTunnel
        }
    }

    let cfg = VeilConfig {
        top_k_probes: 2,
        ..VeilConfig::default()
    };
    let candidates = select_probe_candidates(
        &NetworkFingerprint::default(),
        MethodSet::all(),
        &BlockedScores,
        &cfg,
        now_sys(),
    );

    // WebTunnel should be skipped; Obfs4 and Masque (both no data = 50.0) remain.
    assert_eq!(candidates.len(), 2);
    assert!(!candidates.contains(&MethodId::WebTunnel));
    // Obfs4 should be first (tied score, but appears earlier in MethodId::all()).
    assert_eq!(candidates[0], MethodId::Obfs4);
}

#[test]
fn select_candidates_empty_fallback() {
    struct AllBlockedScores;
    impl ScoreLookup for AllBlockedScores {
        fn get(&self, _fp: &NetworkFingerprint, _method: MethodId) -> Option<ScoreEntry> {
            Some(ScoreEntry {
                successes: 0,
                failures: 5,
                last_success_at: None,
                last_failure_at: Some(now_sys()),
                median_latency_ms: 0,
                blocked_at: Some(ago(86400)),
                consecutive_failures: 5,
            })
        }
        fn is_permanently_blocked(
            &self,
            _fp: &NetworkFingerprint,
            _method: MethodId,
            _ttl: Duration,
            _now: SystemTime,
        ) -> bool {
            true
        }
    }

    let cfg = VeilConfig {
        top_k_probes: 2,
        ..VeilConfig::default()
    };
    let candidates = select_probe_candidates(
        &NetworkFingerprint::default(),
        MethodSet::all(),
        &AllBlockedScores,
        &cfg,
        now_sys(),
    );

    // Should pick the least-recently-blocked method as a fallback.
    assert!(!candidates.is_empty());
}

// Legacy (top_k=1) behaviour

#[test]
fn legacy_config_selects_one_candidate() {
    let cfg = VeilConfig::legacy();
    let candidates = select_probe_candidates(
        &NetworkFingerprint::default(),
        MethodSet::all(),
        &NoScores,
        &cfg,
        now_sys(),
    );

    assert_eq!(candidates.len(), 1);
}

// Method set

#[test]
fn method_set_all_allows_everything() {
    let ms = MethodSet::all();
    assert!(ms.contains(MethodId::Obfs4));
    assert!(ms.contains(MethodId::WebTunnel));
    assert!(ms.contains(MethodId::Masque));
}

#[test]
fn method_set_disables_specific_method() {
    let ms = MethodSet::from_bitmask(MethodId::WebTunnel.bit());
    assert!(ms.contains(MethodId::Obfs4));
    assert!(!ms.contains(MethodId::WebTunnel));
}

// Scores

fn entry(successes: u32, failures: u32) -> ScoreEntry {
    ScoreEntry { successes, failures, ..ScoreEntry::default() }
}

fn points(entry: ScoreEntry, now: SystemTime) -> f64 {
    let s = score_entry(&Some(entry), now);
    s.num as f64 / s.den as f64 / POINT as f64
}

#[test]
fn a_method_without_data_scores_fifty() {
    let now = SystemTime::from_unix_secs(100_000);
    assert_eq!(points(entry(0, 0), now), 50.0);
    let s = compute_score(&NoScores, &NetworkFingerprint::default(), MethodId::Masque, now);
    assert_eq!(s.num, 50 * POINT * s.den);
}

#[test]
fn a_score_is_the_success_rate_in_percent() {
    let now = SystemTime::from_unix_secs(100_000);
    assert_eq!(points(entry(3, 1), now), 75.0);
    assert_eq!(points(entry(0, 4), now), 0.0);
}

#[test]
fn failures_in_a_row_cost_twenty_each_and_fade_within_the_hour() {
    let now = SystemTime::from_unix_secs(100_000);
    let failed = |secs_ago: i64| ScoreEntry {
        consecutive_failures: 2,
        last_failure_at: Some(SystemTime::from_unix_secs(100_000 - secs_ago)),
        ..entry(4, 0)
    };
    assert_eq!(points(failed(0), now), 60.0);
    assert_eq!(points(failed(300), now), 60.0);
    assert_eq!(points(failed(1_950), now), 80.0);
    assert_eq!(points(failed(3_600), now), 100.0);
    assert_eq!(points(failed(3_601), now), 100.0);
    assert_eq!(points(failed(-1), now), 100.0, "a time to come is ignored");
}

#[test]
fn slow_methods_lose_up_to_twenty_points() {
    let now = SystemTime::from_unix_secs(100_000);
    let slow = |ms| ScoreEntry { median_latency_ms: ms, ..entry(1, 0) };
    assert_eq!(points(slow(1_000), now), 100.0);
    assert_eq!(points(slow(1_500), now), 95.0);
    assert_eq!(points(slow(3_000), now), 80.0);
    assert_eq!(points(slow(60_000), now), 80.0);
}

#[test]
fn a_success_within_the_hour_is_worth_five_points() {
    let now = SystemTime::from_unix_secs(100_000);
    let worked = |secs_ago: i64| ScoreEntry {
        last_success_at: Some(SystemTime::from_unix_secs(100_000 - secs_ago)),
        ..entry(1, 1)
    };
    assert_eq!(points(worked(0), now), 55.0);
    assert_eq!(points(worked(3_599), now), 55.0);
    assert_eq!(points(worked(3_600), now), 50.0);
    assert_eq!(points(worked(-1), now), 50.0);
}

/// Scores given as one entry for each method, and which methods are blocked.
struct Table(Vec<(MethodId, ScoreEntry)>, Vec<MethodId>);
impl ScoreLookup for Table {
    fn get(&self, _fp: &NetworkFingerprint, method: MethodId) -> Option<ScoreEntry> {
        self.0.iter().find(|e| e.0 == method).map(|e| e.1)
    }
    fn is_permanently_blocked(
        &self,
        _fp: &NetworkFingerprint,
        method: MethodId,
        _ttl: Duration,
        _now: SystemTime,
    ) -> bool {
        self.1.contains(&method)
    }
}

fn chosen(table: &dyn ScoreLookup, allowed: MethodSet, top_k: usize) -> Vec<MethodId> {
    let cfg = VeilConfig { top_k_probes: top_k, ..VeilConfig::default() };
    let now = SystemTime::from_unix_secs(100_000);
    select_probe_candidates(&NetworkFingerprint::default(), allowed, table, &cfg, now)
}

#[test]
fn the_best_come_first_and_ties_keep_the_order_of_the_methods() {
    let table = Table(vec![(MethodId::Obfs4, entry(1, 3)), (MethodId::Masque, entry(9, 1))], vec![]);
    assert_eq!(
        chosen(&table, MethodSet::all(), 9),
        vec![MethodId::Masque, MethodId::WebTunnel, MethodId::VeilFront, MethodId::Obfs4]
    );
    assert_eq!(chosen(&table, MethodSet::all(), 1), vec![MethodId::Masque]);
}

#[test]
fn the_least_recently_blocked_method_is_the_last_resort() {
    let blocked = |secs: i64| ScoreEntry {
        blocked_at: Some(SystemTime::from_unix_secs(secs)),
        ..entry(0, 5)
    };
    let table = Table(
        vec![
            (MethodId::Obfs4, blocked(900)),
            (MethodId::WebTunnel, blocked(300)),
            (MethodId::Masque, blocked(700)),
        ],
        MethodId::all().to_vec(),
    );
    assert_eq!(chosen(&table, MethodSet::all(), 2), vec![MethodId::WebTunnel]);

    let undated = Table(vec![], MethodId::all().to_vec());
    assert_eq!(chosen(&undated, MethodSet::from_bitmask(1), 2), vec![MethodId::WebTunnel]);
    assert!(chosen(&undated, MethodSet::none(), 2).is_empty());
    assert_eq!(chosen(&NoScores, MethodSet::all(), 0), vec![MethodId::Obfs4]);
}

#[test]
fn disallowed_methods_are_never_candidates() {
    let bits = MethodId::Obfs4.bit() | MethodId::VeilFront.bit();
    assert_eq!(
        chosen(&NoScores, MethodSet::from_bitmask(bits), 4),
        vec![MethodId::WebTunnel, MethodId::Masque]
    );
}

// More transitions

fn step(state: VeilState, event: VeilEvent) -> (VeilState, Vec<VeilEffect>) {
    reduce(state, event, &NoScores, &VeilConfig::default(), now(), now_sys())
}

fn probing(methods: &[MethodId]) -> VeilState {
    VeilState::Probing {
        candidates: methods.to_vec(),
        attempts: methods.iter().map(|m| (*m, ProbeAttempt { started_at: now() })).collect(),
        started_at: now(),
    }
}

#[test]
fn probe_results_are_recorded() {
    let (_, effects) = step(
        probing(&[MethodId::Obfs4]),
        VeilEvent::ProbeSucceeded { method: MethodId::Obfs4, port: 1, latency_ms: 7 },
    );
    match &effects[1] {
        VeilEffect::RecordScore { method, fingerprint, outcome } => {
            assert_eq!(*method, MethodId::Obfs4);
            assert_eq!(*fingerprint, NetworkFingerprint::default());
            assert_eq!(*outcome, ScoreOutcome::Success { latency_ms: 7 });
        }
        _ => panic!("expected a score"),
    }

    let reason = ProbeFailureReason::Timeout;
    let (state, effects) = step(
        probing(&[MethodId::Obfs4, MethodId::Masque]),
        VeilEvent::ProbeFailed { method: MethodId::Obfs4, reason },
    );
    assert_eq!(effects.len(), 1);
    assert!(matches!(
        effects[0],
        VeilEffect::RecordScore { method: MethodId::Obfs4, outcome: ScoreOutcome::Failure { .. }, .. }
    ));
    match state {
        VeilState::Probing { attempts, .. } => {
            assert_eq!(attempts.iter().map(|a| a.0).collect::<Vec<_>>(), vec![MethodId::Masque]);
        }
        _ => panic!("expected probing"),
    }
}

#[test]
fn results_from_another_session_are_ignored() {
    for event in [
        VeilEvent::ProbeSucceeded { method: MethodId::Masque, port: 1, latency_ms: 7 },
        VeilEvent::ProbeFailed { method: MethodId::Masque, reason: ProbeFailureReason::Unknown },
    ] {
        let (state, effects) = step(probing(&[MethodId::Obfs4]), event);
        assert_eq!(state.label(), "probing");
        assert!(effects.is_empty());
    }
}

#[test]
fn a_cooldown_lasts_its_time() {
    let cfg = VeilConfig::default();
    let t = now();
    let (state, effects) =
        reduce(probing(&[MethodId::Obfs4]), VeilEvent::AllProbesFailed, &NoScores, &cfg, t, now_sys());
    match effects[0] {
        VeilEffect::ScheduleCooldown { duration } => assert_eq!(duration, Duration::from_secs(30)),
        _ => panic!("expected a schedule"),
    }
    let end = t.plus(cfg.cooldown_duration);
    let early = Instant { nanos: end.nanos - 1 };
    let (state, _) =
        reduce(state, VeilEvent::CooldownElapsed, &NoScores, &cfg, early, now_sys());
    assert_eq!(state.label(), "cooldown");
    let (state, _) = reduce(state, VeilEvent::CooldownElapsed, &NoScores, &cfg, end, now_sys());
    assert_eq!(state.label(), "idle");
}

#[test]
fn a_decoy_or_a_block_forces_rotation_with_the_next_failure() {
    for kind in
        [TransportFailureKind::FingerprintBlocked, TransportFailureKind::WebTunnelDecoyResponse]
    {
        let active = VeilState::Active {
            method: MethodId::WebTunnel,
            port: 9,
            started_at: now(),
            consecutive_failures: 0,
        };
        let (state, effects) = step(active, VeilEvent::TransportFailure { kind });
        assert_eq!(state.label(), "degraded");
        assert!(effects.is_empty());
        let kind = TransportFailureKind::Unknown;
        let (state, effects) = step(state, VeilEvent::TransportFailure { kind });
        assert_eq!(state.label(), "idle");
        assert!(matches!(effects[0], VeilEffect::StopActive));
    }
}

#[test]
fn a_degraded_method_below_the_threshold_goes_on_counting() {
    let cfg = VeilConfig { degraded_threshold: 4, ..VeilConfig::default() };
    let state = VeilState::Degraded { method: MethodId::Obfs4, port: 1, consecutive_failures: 2 };
    let kind = TransportFailureKind::StreamTimeout;
    let event = VeilEvent::TransportFailure { kind };
    let (state, _) = reduce(state, event, &NoScores, &cfg, now(), now_sys());
    assert!(matches!(state, VeilState::Degraded { consecutive_failures: 3, .. }));

    let kind = TransportFailureKind::TlsCertProblem;
    let event = VeilEvent::TransportFailure { kind };
    let (state, _) = reduce(state, event, &NoScores, &cfg, now(), now_sys());
    assert!(matches!(state, VeilState::Degraded { consecutive_failures: 3, .. }));
}

#[test]
fn events_that_do_not_fit_change_nothing() {
    let (state, effects) = step(VeilState::Idle, VeilEvent::CooldownElapsed);
    assert_eq!((state.label(), effects.len()), ("idle", 0));
    let (state, effects) = step(probing(&[MethodId::Obfs4]), VeilEvent::CooldownElapsed);
    assert_eq!((state.label(), effects.len()), ("probing", 0));
    let cooling = VeilState::Cooldown { until: now() };
    let (state, effects) = step(cooling, VeilEvent::AllProbesFailed);
    assert_eq!((state.label(), effects.len()), ("cooldown", 0));
}

#[test]
fn the_defaults_are_as_documented() {
    let cfg = VeilConfig::default();
    assert_eq!((cfg.top_k_probes, cfg.degraded_threshold, cfg.max_fingerprints), (2, 2, 50));
    assert_eq!(cfg.inter_probe_delay, Duration::from_millis(150));
    assert_eq!(cfg.probe_timeout, Duration::from_secs(8));
    assert_eq!(cfg.cooldown_duration, Duration::from_secs(30));
    assert_eq!(cfg.block_ttl, Duration::from_secs(7 * 24 * 3600));
    assert_eq!(VeilConfig::legacy().cooldown_duration, cfg.cooldown_duration);
}

// Methods

#[test]
fn each_method_has_a_bit_of_its_own() {
    let bits: Vec<u32> = MethodId::all().iter().map(|m| m.bit()).collect();
    assert_eq!(bits, vec![1, 2, 4, 8]);
    for disabled in MethodId::all() {
        let set = MethodSet::from_bitmask(disabled.bit());
        let allowed = set.iter_allowed();
        assert_eq!(allowed.len(), 3);
        assert!(!allowed.contains(disabled));
    }
    assert!(MethodSet::none().iter_allowed().is_empty());
}

#[test]
fn methods_have_names() {
    let names: Vec<&str> = MethodId::all().iter().map(|m| m.name()).collect();
    assert_eq!(names, vec!["obfs4", "webtunnel", "masque", "veil-front"]);
}

#[test]
fn a_fingerprint_is_shown_by_its_first_four_bytes() {
    let fp = NetworkFingerprint::new(vec![0x00, 0xAB, 0x0F, 0xF0, 0x12]);
    assert_eq!(fp.short_hex(), "00ab0ff0");
    assert_eq!(NetworkFingerprint::new(vec![0x7E]).short_hex(), "7e");
    assert_eq!(NetworkFingerprint::default().as_bytes(), &[0u8; 16]);
}

#[test]
fn scores_are_stored_under_the_first_sixteen_bytes() {
    let long: Vec<u8> = (0..20).collect();
    assert_eq!(NetworkFingerprint::new(long.clone()).storage_key(), &long[..16]);
    assert_eq!(NetworkFingerprint::new(vec![1, 2]).storage_key(), &[1, 2]);
    assert_eq!(NetworkFingerprint::default().storage_key(), &[0u8; 16]);
}
