//! Pure FSM: states, events, effects, and the reducer.
//!
//! The FSM is a **pure function**: `(state, event, scores, config, now) -> (state, effects)`.
//! No I/O, no tasks, no file access.

use crate::client::candidates::{select_probe_candidates, ScoreLookup, VeilConfig};
use crate::client::method::{MethodId, MethodSet, NetworkFingerprint};
use crate::clock::{Duration, Instant, SystemTime};
use vstd::prelude::*;

verus! {

/// Why a probe or transport connection failed.
#[derive(Debug, Clone, Copy, PartialEq, Eq, Structural)]
pub enum ProbeFailureReason {
    /// TLS handshake_failure / alert 40: method blocked by DPI.
    FingerprintBlocked,
    /// Non-101 on WebSocket upgrade: WebTunnel choked by transparent proxy.
    WebTunnelDecoyResponse,
    /// Certificate expired or verification failed.
    TlsCertProblem,
    /// Connection refused / timeout: network issue.
    ConnectionFailed,
    /// Handshake completed but no payload arrived within timeout.
    Timeout,
    /// Unknown / uncategorized failure.
    Unknown,
}

/// Outcome recorded in persistent scores.
#[derive(Debug, Clone, Copy, PartialEq, Eq, Structural)]
pub enum ScoreOutcome {
    /// Probe succeeded.
    Success { latency_ms: u32 },
    /// Probe failed.
    Failure { reason: ProbeFailureReason },
}

/// Why the active transport degraded.
#[derive(Debug, Clone, Copy, PartialEq, Eq, Structural)]
pub enum TransportFailureKind {
    /// TLS handshake_failure / alert 40. Method blocked by DPI.
    FingerprintBlocked,
    /// HTTP non-101 on WebSocket upgrade. WebTunnel choked by transparent proxy.
    WebTunnelDecoyResponse,
    /// Cert expired / verify failed.
    TlsCertProblem,
    /// Stream timeout: traffic not flowing.
    StreamTimeout,
    /// Unknown: degradation counter, but not hard-fail.
    Unknown,
}

/// Probe attempt tracking within Probing state.
#[derive(Debug, Clone, Copy, PartialEq, Eq, Structural)]
pub struct ProbeAttempt {
    /// When this probe was started.
    pub started_at: Instant,
}

/// The current state of the session FSM.
#[derive(Debug, Clone)]
pub enum VeilState {
    /// Not running. Waiting for a Start event.
    Idle,
    /// Probing top-K obfuscators in parallel.
    Probing {
        /// Methods currently being probed.
        candidates: Vec<MethodId>,
        /// Track when each probe started: one entry for each method that has one.
        attempts: Vec<(MethodId, ProbeAttempt)>,
        /// When probing began.
        started_at: Instant,
    },
    /// One obfuscator won the probe race. Active connection.
    Active { method: MethodId, port: u16, started_at: Instant, consecutive_failures: u8 },
    /// Active but experiencing transport errors.
    /// Gives the method up when `consecutive_failures >= degraded_threshold`.
    Degraded { method: MethodId, port: u16, consecutive_failures: u8 },
    /// All probes failed. Waiting before retry.
    Cooldown { until: Instant },
}

/// A state, its lists element for element.
#[verifier::ext_equal]
pub enum StateView {
    Idle,
    Probing {
        candidates: Seq<MethodId>,
        attempts: Seq<(MethodId, ProbeAttempt)>,
        started_at: Instant,
    },
    Active { method: MethodId, port: u16, started_at: Instant, consecutive_failures: u8 },
    Degraded { method: MethodId, port: u16, consecutive_failures: u8 },
    Cooldown { until: Instant },
}

impl View for VeilState {
    type V = StateView;

    open spec fn view(&self) -> StateView {
        match *self {
            VeilState::Idle => StateView::Idle,
            VeilState::Probing { candidates, attempts, started_at } => StateView::Probing {
                candidates: candidates@,
                attempts: attempts@,
                started_at,
            },
            VeilState::Active { method, port, started_at, consecutive_failures } => {
                StateView::Active { method, port, started_at, consecutive_failures }
            },
            VeilState::Degraded { method, port, consecutive_failures } => StateView::Degraded {
                method,
                port,
                consecutive_failures,
            },
            VeilState::Cooldown { until } => StateView::Cooldown { until },
        }
    }
}

impl VeilState {
    /// Human-readable label.
    pub fn label(&self) -> (r: &'static str)
        ensures
            r@ == match self@ {
                StateView::Idle => "idle"@,
                StateView::Probing { .. } => "probing"@,
                StateView::Active { .. } => "active"@,
                StateView::Degraded { .. } => "degraded"@,
                StateView::Cooldown { .. } => "cooldown"@,
            },
    {
        match self {
            VeilState::Idle => "idle",
            VeilState::Probing { .. } => "probing",
            VeilState::Active { .. } => "active",
            VeilState::Degraded { .. } => "degraded",
            VeilState::Cooldown { .. } => "cooldown",
        }
    }
}

/// Events that drive the FSM transitions.
#[derive(Debug, Clone)]
pub enum VeilEvent {
    /// Caller requests a start.
    Start {
        relay: String,
        bundle: String,
        fingerprint: NetworkFingerprint,
        allowed_methods: MethodSet,
    },
    /// Caller requests a stop.
    Stop,
    /// A probe succeeded with the given latency.
    ProbeSucceeded { method: MethodId, port: u16, latency_ms: u32 },
    /// A probe failed.
    ProbeFailed { method: MethodId, reason: ProbeFailureReason },
    /// All parallel probes failed without success.
    AllProbesFailed,
    /// Transport failure reported by caller (e.g. RPC timeout, TLS reset).
    TransportFailure { kind: TransportFailureKind },
    /// Cooldown timer elapsed.
    CooldownElapsed,
}

/// An event, its texts character for character.
#[verifier::ext_equal]
pub enum EventView {
    Start { relay: Seq<char>, bundle: Seq<char>, fingerprint: Seq<u8>, allowed_methods: MethodSet },
    Stop,
    ProbeSucceeded { method: MethodId, port: u16, latency_ms: u32 },
    ProbeFailed { method: MethodId, reason: ProbeFailureReason },
    AllProbesFailed,
    TransportFailure { kind: TransportFailureKind },
    CooldownElapsed,
}

impl View for VeilEvent {
    type V = EventView;

    open spec fn view(&self) -> EventView {
        match *self {
            VeilEvent::Start { relay, bundle, fingerprint, allowed_methods } => EventView::Start {
                relay: relay@,
                bundle: bundle@,
                fingerprint: fingerprint@,
                allowed_methods,
            },
            VeilEvent::Stop => EventView::Stop,
            VeilEvent::ProbeSucceeded { method, port, latency_ms } => EventView::ProbeSucceeded {
                method,
                port,
                latency_ms,
            },
            VeilEvent::ProbeFailed { method, reason } => EventView::ProbeFailed { method, reason },
            VeilEvent::AllProbesFailed => EventView::AllProbesFailed,
            VeilEvent::TransportFailure { kind } => EventView::TransportFailure { kind },
            VeilEvent::CooldownElapsed => EventView::CooldownElapsed,
        }
    }
}

/// Effects emitted by the FSM. The caller executes them.
#[derive(Debug, Clone)]
pub enum VeilEffect {
    /// Start parallel probes for the given methods.
    StartProbes { methods: Vec<MethodId>, relay: String, bundle: String },
    /// Cancel all probes except the winner.
    CancelOtherProbes { winner: MethodId },
    /// Shut down the currently active method entirely.
    StopActive,
    /// Schedule a CooldownElapsed event after the given duration.
    ScheduleCooldown { duration: Duration },
    /// Record a score outcome for a method. The FSM does not know the network: the fingerprint is
    /// the default one, and the caller puts the current one in its place.
    RecordScore { method: MethodId, fingerprint: NetworkFingerprint, outcome: ScoreOutcome },
}

/// An effect, its lists and texts element for element.
#[verifier::ext_equal]
pub enum EffectView {
    StartProbes { methods: Seq<MethodId>, relay: Seq<char>, bundle: Seq<char> },
    CancelOtherProbes { winner: MethodId },
    StopActive,
    ScheduleCooldown { duration: Duration },
    RecordScore { method: MethodId, fingerprint: Seq<u8>, outcome: ScoreOutcome },
}

impl View for VeilEffect {
    type V = EffectView;

    open spec fn view(&self) -> EffectView {
        match *self {
            VeilEffect::StartProbes { methods, relay, bundle } => EffectView::StartProbes {
                methods: methods@,
                relay: relay@,
                bundle: bundle@,
            },
            VeilEffect::CancelOtherProbes { winner } => EffectView::CancelOtherProbes { winner },
            VeilEffect::StopActive => EffectView::StopActive,
            VeilEffect::ScheduleCooldown { duration } => EffectView::ScheduleCooldown { duration },
            VeilEffect::RecordScore { method, fingerprint, outcome } => EffectView::RecordScore {
                method,
                fingerprint: fingerprint@,
                outcome,
            },
        }
    }
}

/// A list of effects, each behind its view.
pub open spec fn effects_view(effects: Seq<VeilEffect>) -> Seq<EffectView> {
    effects.map_values(|e: VeilEffect| e@)
}

/// One failure more, as far as it can be counted.
pub open spec fn one_more(failures: u8) -> u8 {
    if failures == u8::MAX {
        u8::MAX
    } else {
        (failures + 1) as u8
    }
}

/// Whether a failure means that the method is recognised and blocked.
pub open spec fn is_block(kind: TransportFailureKind) -> bool {
    kind == TransportFailureKind::FingerprintBlocked || kind
        == TransportFailureKind::WebTunnelDecoyResponse
}

/// The candidates without one of them.
pub open spec fn without(candidates: Seq<MethodId>, method: MethodId) -> Seq<MethodId> {
    candidates.filter(|m: MethodId| m != method)
}

/// The attempts without those of one method.
pub open spec fn attempts_without(
    attempts: Seq<(MethodId, ProbeAttempt)>,
    method: MethodId,
) -> Seq<(MethodId, ProbeAttempt)> {
    attempts.filter(|a: (MethodId, ProbeAttempt)| a.0 != method)
}

/// The cooldown that starts at `now`.
pub open spec fn cool_down(cfg: VeilConfig, now: Instant) -> (StateView, Seq<EffectView>) {
    (
        StateView::Cooldown { until: now.after(cfg.cooldown_duration) },
        seq![EffectView::ScheduleCooldown { duration: cfg.cooldown_duration }],
    )
}

/// Whether an event ends the probing without a winner.
pub open spec fn exhausts(state: StateView, event: EventView) -> bool {
    match (state, event) {
        (StateView::Probing { candidates, .. }, EventView::ProbeFailed { method, .. }) => {
            candidates.contains(method) && without(candidates, method).len() == 0
        },
        (StateView::Probing { .. }, EventView::AllProbesFailed) => true,
        _ => false,
    }
}

/// What a state becomes on an event, and the effects. `chosen` are the candidates that the
/// selection gives for a start.
pub open spec fn transition(
    state: StateView,
    event: EventView,
    chosen: Seq<MethodId>,
    cfg: VeilConfig,
    now: Instant,
) -> (StateView, Seq<EffectView>) {
    let stay = (state, Seq::<EffectView>::empty());
    match (state, event) {
        // A stop always leads to Idle; something that runs is stopped.
        (StateView::Idle, EventView::Stop) => stay,
        (StateView::Cooldown { .. }, EventView::Stop) => (StateView::Idle, Seq::empty()),
        (_, EventView::Stop) => (StateView::Idle, seq![EffectView::StopActive]),
        (StateView::Idle, EventView::Start { relay, bundle, .. }) => (
            StateView::Probing {
                candidates: chosen,
                attempts: chosen.map_values(
                    |m: MethodId| (m, ProbeAttempt { started_at: now }),
                ),
                started_at: now,
            },
            seq![EffectView::StartProbes { methods: chosen, relay, bundle }],
        ),
        (
            StateView::Probing { candidates, .. },
            EventView::ProbeSucceeded { method, port, latency_ms },
        ) => if candidates.contains(method) {
            (
                StateView::Active { method, port, started_at: now, consecutive_failures: 0 },
                seq![
                    EffectView::CancelOtherProbes { winner: method },
                    EffectView::RecordScore {
                        method,
                        fingerprint: crate::client::method::default_fingerprint(),
                        outcome: ScoreOutcome::Success { latency_ms },
                    },
                ],
            )
        } else {
            stay
        },
        (
            StateView::Probing { candidates, attempts, started_at },
            EventView::ProbeFailed { method, reason },
        ) => if !candidates.contains(method) {
            stay
        } else if exhausts(state, event) {
            cool_down(cfg, now)
        } else {
            (
                StateView::Probing {
                    candidates: without(candidates, method),
                    attempts: attempts_without(attempts, method),
                    started_at,
                },
                seq![
                    EffectView::RecordScore {
                        method,
                        fingerprint: crate::client::method::default_fingerprint(),
                        outcome: ScoreOutcome::Failure { reason },
                    },
                ],
            )
        },
        (StateView::Probing { .. }, EventView::AllProbesFailed) => cool_down(cfg, now),
        (
            StateView::Active { method, port, started_at, consecutive_failures },
            EventView::TransportFailure { kind },
        ) => if kind == TransportFailureKind::TlsCertProblem {
            stay
        } else if is_block(kind) {
            (
                StateView::Degraded { method, port, consecutive_failures: u8::MAX },
                Seq::empty(),
            )
        } else {
            let failures = one_more(consecutive_failures);
            (
                if failures >= cfg.degraded_threshold {
                    StateView::Degraded { method, port, consecutive_failures: failures }
                } else {
                    StateView::Active { method, port, started_at, consecutive_failures: failures }
                },
                Seq::empty(),
            )
        },
        (
            StateView::Degraded { method, port, consecutive_failures },
            EventView::TransportFailure { kind },
        ) => if kind == TransportFailureKind::TlsCertProblem {
            stay
        } else if consecutive_failures >= cfg.degraded_threshold {
            (StateView::Idle, seq![EffectView::StopActive])
        } else {
            (
                StateView::Degraded {
                    method,
                    port,
                    consecutive_failures: one_more(consecutive_failures),
                },
                Seq::empty(),
            )
        },
        (StateView::Cooldown { until }, EventView::CooldownElapsed) => if now.nanos >= until.nanos {
            (StateView::Idle, Seq::empty())
        } else {
            stay
        },
        // Every other event is ignored.
        _ => stay,
    }
}

/// The candidates that the selection gives for an event that is a start.
pub open spec fn chosen_for<S: ScoreLookup + ?Sized>(
    event: EventView,
    scores: &S,
    cfg: VeilConfig,
    now_sys: SystemTime,
) -> Seq<MethodId> {
    match event {
        EventView::Start { fingerprint, allowed_methods, .. } => {
            crate::client::candidates::selection(
                allowed_methods,
                cfg.top_k_probes,
                crate::client::candidates::blocks(scores, fingerprint, cfg.block_ttl, now_sys),
                crate::client::candidates::entries(scores, fingerprint),
                now_sys,
            )
        },
        _ => Seq::empty(),
    }
}

/// Whether a method is among the candidates.
fn is_candidate(candidates: &Vec<MethodId>, method: MethodId) -> (r: bool)
    ensures
        r == candidates@.contains(method),
{
    let mut i: usize = 0;
    while i < candidates.len()
        invariant
            i <= candidates@.len(),
            forall|k: int| 0 <= k < i ==> candidates@[k] != method,
        decreases candidates@.len() - i,
    {
        if candidates[i] == method {
            return true;
        }
        i = i + 1;
    }
    false
}

fn drop_candidate(candidates: &Vec<MethodId>, method: MethodId) -> (r: Vec<MethodId>)
    ensures
        r@ == without(candidates@, method),
{
    let mut out: Vec<MethodId> = Vec::new();
    let mut i: usize = 0;
    proof {
        reveal(Seq::filter);
        assert(candidates@.take(0) =~= Seq::empty());
    }
    while i < candidates.len()
        invariant
            i <= candidates@.len(),
            out@ == without(candidates@.take(i as int), method),
        decreases candidates@.len() - i,
    {
        proof {
            reveal(Seq::filter);
            assert(candidates@.take(i + 1).drop_last() =~= candidates@.take(i as int));
        }
        if candidates[i] != method {
            out.push(candidates[i]);
        }
        i = i + 1;
    }
    assert(candidates@.take(i as int) =~= candidates@);
    out
}

fn drop_attempts(attempts: &Vec<(MethodId, ProbeAttempt)>, method: MethodId) -> (r: Vec<
    (MethodId, ProbeAttempt),
>)
    ensures
        r@ == attempts_without(attempts@, method),
{
    let mut out: Vec<(MethodId, ProbeAttempt)> = Vec::new();
    let mut i: usize = 0;
    proof {
        reveal(Seq::filter);
        assert(attempts@.take(0) =~= Seq::empty());
    }
    while i < attempts.len()
        invariant
            i <= attempts@.len(),
            out@ == attempts_without(attempts@.take(i as int), method),
        decreases attempts@.len() - i,
    {
        proof {
            reveal(Seq::filter);
            assert(attempts@.take(i + 1).drop_last() =~= attempts@.take(i as int));
        }
        let (m, attempt): (MethodId, ProbeAttempt) = attempts[i];
        if m != method {
            out.push((m, attempt));
        }
        i = i + 1;
    }
    assert(attempts@.take(i as int) =~= attempts@);
    out
}

fn begin_attempts(candidates: &Vec<MethodId>, now: Instant) -> (r: Vec<(MethodId, ProbeAttempt)>)
    ensures
        r@ == candidates@.map_values(|m: MethodId| (m, ProbeAttempt { started_at: now })),
{
    let mut out: Vec<(MethodId, ProbeAttempt)> = Vec::new();
    let mut i: usize = 0;
    while i < candidates.len()
        invariant
            i <= candidates@.len(),
            out@ =~= candidates@.take(i as int).map_values(
                |m: MethodId| (m, ProbeAttempt { started_at: now }),
            ),
        decreases candidates@.len() - i,
    {
        out.push((candidates[i], ProbeAttempt { started_at: now }));
        i = i + 1;
    }
    assert(candidates@.take(i as int) =~= candidates@);
    out
}

fn copy_methods(methods: &Vec<MethodId>) -> (r: Vec<MethodId>)
    ensures
        r@ == methods@,
{
    vstd::slice::slice_to_vec(methods.as_slice())
}

fn enter_cooldown(cfg: &VeilConfig, now: Instant) -> (r: (VeilState, Vec<VeilEffect>))
    requires
        now.reaches(cfg.cooldown_duration),
    ensures
        (r.0@, effects_view(r.1@)) == cool_down(*cfg, now),
{
    let mut effects: Vec<VeilEffect> = Vec::new();
    effects.push(VeilEffect::ScheduleCooldown { duration: cfg.cooldown_duration });
    assert(effects_view(effects@) =~= cool_down(*cfg, now).1);
    (VeilState::Cooldown { until: now.plus(cfg.cooldown_duration) }, effects)
}

fn stop_active() -> (r: (VeilState, Vec<VeilEffect>))
    ensures
        (r.0@, effects_view(r.1@)) == (StateView::Idle, seq![EffectView::StopActive]),
{
    let mut effects: Vec<VeilEffect> = Vec::new();
    effects.push(VeilEffect::StopActive);
    assert(effects_view(effects@) =~= seq![EffectView::StopActive]);
    (VeilState::Idle, effects)
}

/// What Probing does with an event.
fn reduce_probing(
    candidates: Vec<MethodId>,
    attempts: Vec<(MethodId, ProbeAttempt)>,
    started_at: Instant,
    event: VeilEvent,
    cfg: &VeilConfig,
    now: Instant,
    Ghost(chosen): Ghost<Seq<MethodId>>,
) -> (r: (VeilState, Vec<VeilEffect>))
    requires
        exhausts(
            StateView::Probing { candidates: candidates@, attempts: attempts@, started_at },
            event@,
        ) ==> now.reaches(cfg.cooldown_duration),
    ensures
        (r.0@, effects_view(r.1@)) == transition(
            StateView::Probing { candidates: candidates@, attempts: attempts@, started_at },
            event@,
            chosen,
            *cfg,
            now,
        ),
{
    let mut effects: Vec<VeilEffect> = Vec::new();
    assert(effects_view(effects@) =~= Seq::empty());
    match event {
        VeilEvent::ProbeSucceeded { method, port, latency_ms } => {
            if !is_candidate(&candidates, method) {
                // Probe from a different session: ignore.
                return (VeilState::Probing { candidates, attempts, started_at }, effects);
            }
            effects.push(VeilEffect::CancelOtherProbes { winner: method });
            effects.push(
                VeilEffect::RecordScore {
                    method,
                    fingerprint: NetworkFingerprint::default(),
                    outcome: ScoreOutcome::Success { latency_ms },
                },
            );
            assert(effects_view(effects@) =~= seq![effects@[0]@, effects@[1]@]);
            (
                VeilState::Active { method, port, started_at: now, consecutive_failures: 0 },
                effects,
            )
        },
        VeilEvent::ProbeFailed { method, reason } => {
            if !is_candidate(&candidates, method) {
                return (VeilState::Probing { candidates, attempts, started_at }, effects);
            }
            let left: Vec<MethodId> = drop_candidate(&candidates, method);
            if left.len() == 0 {
                return enter_cooldown(cfg, now);
            }
            effects.push(
                VeilEffect::RecordScore {
                    method,
                    fingerprint: NetworkFingerprint::default(),
                    outcome: ScoreOutcome::Failure { reason },
                },
            );
            assert(effects_view(effects@) =~= seq![effects@[0]@]);
            (
                VeilState::Probing {
                    candidates: left,
                    attempts: drop_attempts(&attempts, method),
                    started_at,
                },
                effects,
            )
        },
        VeilEvent::AllProbesFailed => enter_cooldown(cfg, now),
        VeilEvent::Stop => stop_active(),
        _ => (VeilState::Probing { candidates, attempts, started_at }, effects),
    }
}

/// The FSM reducer: `(state, event, scores, config, now) -> (state, effects)`.
///
/// Pure function: no I/O, no side effects.
pub fn reduce<S: ScoreLookup + ?Sized>(
    state: VeilState,
    event: VeilEvent,
    scores: &S,
    cfg: &VeilConfig,
    now: Instant,
    now_sys: SystemTime,
) -> (r: (VeilState, Vec<VeilEffect>))
    requires
        exhausts(state@, event@) ==> now.reaches(cfg.cooldown_duration),
    ensures
        (r.0@, effects_view(r.1@)) == transition(
            state@,
            event@,
            chosen_for(event@, scores, *cfg, now_sys),
            *cfg,
            now,
        ),
{
    let mut effects: Vec<VeilEffect> = Vec::new();
    let ghost chosen = chosen_for(event@, scores, *cfg, now_sys);
    assert(effects_view(effects@) =~= Seq::empty());
    match state {
        VeilState::Idle => match event {
            VeilEvent::Start { relay, bundle, fingerprint, allowed_methods } => {
                let candidates: Vec<MethodId> = select_probe_candidates(
                    &fingerprint,
                    allowed_methods,
                    scores,
                    cfg,
                    now_sys,
                );
                let attempts: Vec<(MethodId, ProbeAttempt)> = begin_attempts(&candidates, now);
                let methods: Vec<MethodId> = copy_methods(&candidates);
                effects.push(VeilEffect::StartProbes { methods, relay, bundle });
                assert(effects_view(effects@) =~= seq![effects@[0]@]);
                (VeilState::Probing { candidates, attempts, started_at: now }, effects)
            },
            _ => (VeilState::Idle, effects),
        },
        VeilState::Probing { candidates, attempts, started_at } => reduce_probing(
            candidates,
            attempts,
            started_at,
            event,
            cfg,
            now,
            Ghost(chosen),
        ),
        VeilState::Active { method, port, started_at, consecutive_failures } => match event {
            VeilEvent::TransportFailure { kind } => {
                let next: VeilState = match kind {
                    TransportFailureKind::FingerprintBlocked
                    | TransportFailureKind::WebTunnelDecoyResponse => VeilState::Degraded {
                        method,
                        port,
                        consecutive_failures: u8::MAX,  // Force re-probe
                    },
                    // Not a method failure: it's a bundle issue.
                    TransportFailureKind::TlsCertProblem => VeilState::Active {
                        method,
                        port,
                        started_at,
                        consecutive_failures,
                    },
                    TransportFailureKind::StreamTimeout | TransportFailureKind::Unknown => {
                        let failures: u8 = consecutive_failures.saturating_add(1);
                        if failures >= cfg.degraded_threshold {
                            VeilState::Degraded { method, port, consecutive_failures: failures }
                        } else {
                            VeilState::Active {
                                method,
                                port,
                                started_at,
                                consecutive_failures: failures,
                            }
                        }
                    },
                };
                (next, effects)
            },
            VeilEvent::Stop => stop_active(),
            _ => (VeilState::Active { method, port, started_at, consecutive_failures }, effects),
        },
        VeilState::Degraded { method, port, consecutive_failures } => match event {
            VeilEvent::TransportFailure { kind } => {
                if kind == TransportFailureKind::TlsCertProblem {
                    (VeilState::Degraded { method, port, consecutive_failures }, effects)
                } else if consecutive_failures >= cfg.degraded_threshold {
                    // Threshold already reached: give the method up.
                    stop_active()
                } else {
                    let failures: u8 = consecutive_failures.saturating_add(1);
                    (
                        VeilState::Degraded { method, port, consecutive_failures: failures },
                        effects,
                    )
                }
            },
            VeilEvent::Stop => stop_active(),
            _ => (VeilState::Degraded { method, port, consecutive_failures }, effects),
        },
        VeilState::Cooldown { until } => match event {
            VeilEvent::CooldownElapsed => {
                if now.nanos >= until.nanos {
                    (VeilState::Idle, effects)
                } else {
                    // Too early: stay in cooldown.
                    (VeilState::Cooldown { until }, effects)
                }
            },
            VeilEvent::Stop => (VeilState::Idle, effects),
            _ => (VeilState::Cooldown { until }, effects),
        },
    }
}

/// A stop leads to Idle from every state, and stops whatever is being probed or running.
pub proof fn law_a_stop_leads_to_idle(
    state: StateView,
    chosen: Seq<MethodId>,
    cfg: VeilConfig,
    now: Instant,
)
    ensures
        transition(state, EventView::Stop, chosen, cfg, now).0 == StateView::Idle,
        transition(state, EventView::Stop, chosen, cfg, now).1.contains(EffectView::StopActive)
            <==> !(state is Idle || state is Cooldown),
{
    let effects = transition(state, EventView::Stop, chosen, cfg, now).1;
    if !(state is Idle || state is Cooldown) {
        assert(effects[0] == EffectView::StopActive);
    }
}

/// A certificate problem is no failure of the method: it changes nothing, whatever the state.
pub proof fn law_a_certificate_problem_changes_nothing(
    state: StateView,
    chosen: Seq<MethodId>,
    cfg: VeilConfig,
    now: Instant,
)
    ensures
        transition(
            state,
            EventView::TransportFailure { kind: TransportFailureKind::TlsCertProblem },
            chosen,
            cfg,
            now,
        ) == (state, Seq::<EffectView>::empty()),
{
}

/// Only a candidate can win: what becomes active was being probed, and the others are cancelled.
pub proof fn law_only_a_candidate_becomes_active(
    state: StateView,
    event: EventView,
    chosen: Seq<MethodId>,
    cfg: VeilConfig,
    now: Instant,
)
    requires
        !(state is Active),
        transition(state, event, chosen, cfg, now).0 is Active,
    ensures
        state is Probing,
        state->Probing_candidates.contains(
            transition(state, event, chosen, cfg, now).0->Active_method,
        ),
        transition(state, event, chosen, cfg, now).1[0] == (EffectView::CancelOtherProbes {
            winner: transition(state, event, chosen, cfg, now).0->Active_method,
        }),
        transition(state, event, chosen, cfg, now).0->Active_consecutive_failures == 0,
{
}

/// A method that is recognised and blocked is given up at the next failure, however often it
/// worked before.
pub proof fn law_a_block_forces_rotation(
    method: MethodId,
    port: u16,
    started_at: Instant,
    failures: u8,
    block: TransportFailureKind,
    next: TransportFailureKind,
    chosen: Seq<MethodId>,
    cfg: VeilConfig,
    now: Instant,
    later: Instant,
)
    requires
        is_block(block),
        next != TransportFailureKind::TlsCertProblem,
    ensures
        ({
            let active = StateView::Active {
                method,
                port,
                started_at,
                consecutive_failures: failures,
            };
            let degraded = transition(
                active,
                EventView::TransportFailure { kind: block },
                chosen,
                cfg,
                now,
            ).0;
            &&& degraded is Degraded
            &&& transition(degraded, EventView::TransportFailure { kind: next }, chosen, cfg, later)
                == (StateView::Idle, seq![EffectView::StopActive])
        }),
{
}

/// An active method that has not used up its failures yet.
pub open spec fn is_sound(state: StateView, cfg: VeilConfig) -> bool {
    state matches StateView::Active { consecutive_failures, .. } ==> consecutive_failures == 0
        || consecutive_failures < cfg.degraded_threshold
}

/// While a method is active, fewer failures are counted against it than the threshold allows; no
/// event leads to an active state with more.
pub proof fn law_an_active_method_is_below_the_threshold(
    state: StateView,
    event: EventView,
    chosen: Seq<MethodId>,
    cfg: VeilConfig,
    now: Instant,
)
    requires
        is_sound(state, cfg),
    ensures
        is_sound(transition(state, event, chosen, cfg, now).0, cfg),
{
}

/// The probing of a session ends: a failed probe takes its method off the candidates, and once
/// there is none left the state is Cooldown, until the configured time has passed.
pub proof fn law_failed_probes_use_up_the_candidates(
    candidates: Seq<MethodId>,
    attempts: Seq<(MethodId, ProbeAttempt)>,
    started_at: Instant,
    method: MethodId,
    reason: ProbeFailureReason,
    chosen: Seq<MethodId>,
    cfg: VeilConfig,
    now: Instant,
)
    requires
        candidates.contains(method),
        now.reaches(cfg.cooldown_duration),
    ensures
        ({
            let state = StateView::Probing { candidates, attempts, started_at };
            let event = EventView::ProbeFailed { method, reason };
            match transition(state, event, chosen, cfg, now).0 {
                StateView::Probing { candidates: left, attempts: tried, started_at: since } => {
                    &&& !left.contains(method)
                    &&& 0 < left.len() < candidates.len()
                    &&& forall|m: MethodId| m != method ==> (#[trigger] left.contains(m)
                        <==> candidates.contains(m))
                    &&& since == started_at
                },
                StateView::Cooldown { until } => {
                    &&& forall|m: MethodId| #[trigger] candidates.contains(m) ==> m == method
                    &&& until.nanos == now.nanos + cfg.cooldown_duration.nanos
                },
                _ => false,
            }
        }),
{
    lemma_without(candidates, method);
    let left = without(candidates, method);
    if left.len() == 0 {
        assert forall|m: MethodId| #[trigger] candidates.contains(m) implies m == method by {
            if m != method {
                assert(left.contains(m));
            }
        }
    }
}

proof fn lemma_without(candidates: Seq<MethodId>, method: MethodId)
    ensures
        !without(candidates, method).contains(method),
        without(candidates, method).len() <= candidates.len(),
        candidates.contains(method) ==> without(candidates, method).len() < candidates.len(),
        forall|m: MethodId| m != method ==> (#[trigger] without(candidates, method).contains(m)
            <==> candidates.contains(m)),
    decreases candidates.len(),
{
    reveal(Seq::filter);
    if candidates.len() > 0 {
        let front = candidates.drop_last();
        let x = candidates.last();
        lemma_without(front, method);
        let (a, b) = (without(front, method), without(candidates, method));
        assert(b =~= if x != method {
            a.push(x)
        } else {
            a
        });
        assert forall|m: MethodId| candidates.contains(m) <==> front.contains(m) || m == x by {
            if candidates.contains(m) && m != x {
                let i = choose|i: int| 0 <= i < candidates.len() && candidates[i] == m;
                assert(front[i] == m);
            }
            if front.contains(m) {
                let i = choose|i: int| 0 <= i < front.len() && front[i] == m;
                assert(candidates[i] == m);
            }
            assert(candidates[candidates.len() - 1] == x);
        }
        if x != method {
            assert forall|m: MethodId| #[trigger] b.contains(m) <==> a.contains(m) || m == x by {
                if a.contains(m) {
                    let i = choose|i: int| 0 <= i < a.len() && a[i] == m;
                    assert(b[i] == m);
                }
                assert(b[a.len() as int] == x);
                if b.contains(m) && m != x {
                    let i = choose|i: int| 0 <= i < b.len() && b[i] == m;
                    assert(a[i] == m);
                }
            }
        }
    }
}

/// A cooldown lasts as long as was asked for: an early timer changes nothing, a late one ends it.
pub proof fn law_a_cooldown_lasts_its_time(
    until: Instant,
    chosen: Seq<MethodId>,
    cfg: VeilConfig,
    now: Instant,
)
    ensures
        ({
            let waiting = StateView::Cooldown { until };
            transition(waiting, EventView::CooldownElapsed, chosen, cfg, now).0
                == if now.nanos < until.nanos {
                waiting
            } else {
                StateView::Idle
            }
        }),
{
}

/// The state of a session that is probing.
pub open spec fn probing(
    candidates: Seq<MethodId>,
    attempts: Seq<(MethodId, ProbeAttempt)>,
    started_at: Instant,
) -> StateView {
    StateView::Probing { candidates, attempts, started_at }
}

/// A failed probe is recorded as it failed: while another candidate is left, the one effect of the
/// failure is a score for that method, on the network that the caller fills in, and it is a failure
/// with the very reason of the event, whatever that is. The method and its attempts are off the
/// lists, the others stay on them in their order, and the probing is as old as it was.
pub proof fn law_a_failed_probe_is_recorded_with_its_reason(
    candidates: Seq<MethodId>,
    attempts: Seq<(MethodId, ProbeAttempt)>,
    started_at: Instant,
    method: MethodId,
    other: MethodId,
    reason: ProbeFailureReason,
    chosen: Seq<MethodId>,
    cfg: VeilConfig,
    now: Instant,
)
    requires
        candidates.contains(method),
        candidates.contains(other),
        other != method,
    ensures
        transition(
            probing(candidates, attempts, started_at),
            EventView::ProbeFailed { method, reason },
            chosen,
            cfg,
            now,
        ) == (
            StateView::Probing {
                candidates: candidates.filter(|m: MethodId| m != method),
                attempts: attempts.filter(|a: (MethodId, ProbeAttempt)| a.0 != method),
                started_at,
            },
            seq![
                EffectView::RecordScore {
                    method,
                    fingerprint: Seq::new(16, |i: int| 0u8),
                    outcome: ScoreOutcome::Failure { reason },
                },
            ],
        ),
{
    lemma_without(candidates, method);
    assert(without(candidates, method).contains(other));
    let others = |m: MethodId| m != method;
    let theirs = |a: (MethodId, ProbeAttempt)| a.0 != method;
    assert(others =~= (|m: MethodId| m != method));
    assert(theirs =~= (|a: (MethodId, ProbeAttempt)| a.0 != method));
    lemma_without_is_a_filter(candidates, attempts, method, others, theirs);
    assert(crate::client::method::default_fingerprint() =~= Seq::new(16, |i: int| 0u8));
    let after = transition(
        probing(candidates, attempts, started_at),
        EventView::ProbeFailed { method, reason },
        chosen,
        cfg,
        now,
    );
    assert(after.1 =~= seq![
        EffectView::RecordScore {
            method,
            fingerprint: Seq::new(16, |i: int| 0u8),
            outcome: ScoreOutcome::Failure { reason },
        },
    ]);
}

proof fn lemma_without_is_a_filter(
    candidates: Seq<MethodId>,
    attempts: Seq<(MethodId, ProbeAttempt)>,
    method: MethodId,
    others: spec_fn(MethodId) -> bool,
    theirs: spec_fn((MethodId, ProbeAttempt)) -> bool,
)
    requires
        forall|m: MethodId| #[trigger] others(m) <==> m != method,
        forall|a: (MethodId, ProbeAttempt)| #[trigger] theirs(a) <==> a.0 != method,
    ensures
        without(candidates, method) == candidates.filter(others),
        attempts_without(attempts, method) == attempts.filter(theirs),
    decreases candidates.len() + attempts.len(),
{
    reveal(Seq::filter);
    if candidates.len() > 0 {
        lemma_without_is_a_filter(candidates.drop_last(), attempts, method, others, theirs);
    } else if attempts.len() > 0 {
        lemma_without_is_a_filter(candidates, attempts.drop_last(), method, others, theirs);
    }
}

/// The last candidate's failure starts the cooldown: it lasts the configured time from now on, its
/// timer is the only effect, and no score is recorded for it. So does the word that all probes
/// have failed.
pub proof fn law_the_last_failure_starts_a_cooldown(
    candidates: Seq<MethodId>,
    attempts: Seq<(MethodId, ProbeAttempt)>,
    started_at: Instant,
    method: MethodId,
    reason: ProbeFailureReason,
    chosen: Seq<MethodId>,
    cfg: VeilConfig,
    now: Instant,
)
    requires
        now.reaches(cfg.cooldown_duration),
    ensures
        ({
            let failed = transition(
                probing(candidates, attempts, started_at),
                EventView::AllProbesFailed,
                chosen,
                cfg,
                now,
            );
            let last = transition(
                probing(candidates, attempts, started_at),
                EventView::ProbeFailed { method, reason },
                chosen,
                cfg,
                now,
            );
            &&& failed.0 matches StateView::Cooldown { until } && until.nanos == now.nanos
                + cfg.cooldown_duration.nanos
            &&& failed.1 == seq![EffectView::ScheduleCooldown { duration: cfg.cooldown_duration }]
            &&& candidates.contains(method) && (forall|m: MethodId| #[trigger]
                candidates.contains(m) ==> m == method) ==> last == failed
        }),
{
    lemma_without(candidates, method);
    let left = without(candidates, method);
    if candidates.contains(method) && (forall|m: MethodId| #[trigger]
        candidates.contains(m) ==> m == method) {
        if left.len() > 0 {
            assert(left.contains(left[0]));
        }
    }
}

/// The first probe that succeeds wins: its method becomes active on its port, from now on and
/// without failures. The others are cancelled, and what is recorded for it is a success with the
/// very latency of the event.
pub proof fn law_a_successful_probe_is_recorded_with_its_latency(
    candidates: Seq<MethodId>,
    attempts: Seq<(MethodId, ProbeAttempt)>,
    started_at: Instant,
    method: MethodId,
    port: u16,
    latency_ms: u32,
    chosen: Seq<MethodId>,
    cfg: VeilConfig,
    now: Instant,
)
    requires
        candidates.contains(method),
    ensures
        transition(
            probing(candidates, attempts, started_at),
            EventView::ProbeSucceeded { method, port, latency_ms },
            chosen,
            cfg,
            now,
        ) == (
            StateView::Active { method, port, started_at: now, consecutive_failures: 0 },
            seq![
                EffectView::CancelOtherProbes { winner: method },
                EffectView::RecordScore {
                    method,
                    fingerprint: Seq::new(16, |i: int| 0u8),
                    outcome: ScoreOutcome::Success { latency_ms },
                },
            ],
        ),
{
    assert(crate::client::method::default_fingerprint() =~= Seq::new(16, |i: int| 0u8));
}

/// Every score that is recorded is that of the probe that ended: of its method, a success exactly
/// for a probe that succeeded and with its latency, a failure exactly for one that failed and with
/// its reason. No other event records one, and none records two.
pub proof fn law_scores_come_from_probes_only(
    state: StateView,
    event: EventView,
    chosen: Seq<MethodId>,
    cfg: VeilConfig,
    now: Instant,
    i: int,
    j: int,
)
    requires
        0 <= i < transition(state, event, chosen, cfg, now).1.len(),
        transition(state, event, chosen, cfg, now).1[i] is RecordScore,
        0 <= j < transition(state, event, chosen, cfg, now).1.len(),
        transition(state, event, chosen, cfg, now).1[j] is RecordScore,
    ensures
        ({
            let score = transition(state, event, chosen, cfg, now).1[i];
            &&& i == j
            &&& state is Probing
            &&& state->Probing_candidates.contains(score->RecordScore_method)
            &&& match event {
                EventView::ProbeSucceeded { method, latency_ms, .. } => score->RecordScore_method
                    == method && score->outcome == (ScoreOutcome::Success { latency_ms }),
                EventView::ProbeFailed { method, reason } => score->RecordScore_method == method
                    && score->outcome == (ScoreOutcome::Failure { reason }),
                _ => false,
            }
        }),
{
}

/// A start from Idle probes what was chosen: those methods are the candidates, each with an
/// attempt that starts now, and they are handed to the caller with the relay and the bundle that
/// came with the start.
pub proof fn law_a_start_probes_what_was_chosen(
    relay: Seq<char>,
    bundle: Seq<char>,
    fingerprint: Seq<u8>,
    allowed_methods: MethodSet,
    chosen: Seq<MethodId>,
    cfg: VeilConfig,
    now: Instant,
    i: int,
)
    ensures
        ({
            let (state, effects) = transition(
                StateView::Idle,
                EventView::Start { relay, bundle, fingerprint, allowed_methods },
                chosen,
                cfg,
                now,
            );
            &&& effects == seq![EffectView::StartProbes { methods: chosen, relay, bundle }]
            &&& state is Probing
            &&& state->candidates == chosen
            &&& state->Probing_started_at == now
            &&& state->attempts.len() == chosen.len()
            &&& 0 <= i < chosen.len() ==> state->attempts[i] == (
                chosen[i],
                ProbeAttempt { started_at: now },
            )
        }),
{
}

/// What is chosen for a start is the selection for its network and its allowed methods, under the
/// configured number of probes and time to live of a block, at the time of the start.
pub proof fn law_a_start_chooses_for_its_network<S: ScoreLookup + ?Sized>(
    scores: &S,
    relay: Seq<char>,
    bundle: Seq<char>,
    fingerprint: Seq<u8>,
    allowed_methods: MethodSet,
    cfg: VeilConfig,
    now_sys: SystemTime,
)
    ensures
        chosen_for(
            EventView::Start { relay, bundle, fingerprint, allowed_methods },
            scores,
            cfg,
            now_sys,
        ) == crate::client::candidates::selection(
            allowed_methods,
            cfg.top_k_probes,
            |m: MethodId| scores.blocked(fingerprint, m, cfg.block_ttl, now_sys),
            |m: MethodId| scores.entry(fingerprint, m),
            now_sys,
        ),
{
    assert(crate::client::candidates::blocks(scores, fingerprint, cfg.block_ttl, now_sys) =~= (
    |m: MethodId| scores.blocked(fingerprint, m, cfg.block_ttl, now_sys)));
    assert(crate::client::candidates::entries(scores, fingerprint) =~= (|m: MethodId|
        scores.entry(fingerprint, m)));
}

/// An ordinary failure of an active method counts one: the method and its port stay, and nothing
/// is done. Below the threshold it stays active, and as old as it was; from the threshold on it is
/// degraded. A failure that means a block degrades it at once, beyond any threshold.
pub proof fn law_a_failure_of_an_active_method_counts_one(
    method: MethodId,
    port: u16,
    started_at: Instant,
    failures: u8,
    kind: TransportFailureKind,
    chosen: Seq<MethodId>,
    cfg: VeilConfig,
    now: Instant,
)
    requires
        kind != TransportFailureKind::TlsCertProblem,
    ensures
        ({
            let (state, effects) = transition(
                StateView::Active { method, port, started_at, consecutive_failures: failures },
                EventView::TransportFailure { kind },
                chosen,
                cfg,
                now,
            );
            let block = kind == TransportFailureKind::FingerprintBlocked || kind
                == TransportFailureKind::WebTunnelDecoyResponse;
            &&& effects == Seq::<EffectView>::empty()
            &&& block ==> state == (StateView::Degraded { method, port, consecutive_failures: 255 })
            &&& !block && failures < 255 && failures + 1 < cfg.degraded_threshold ==> state == (
            StateView::Active {
                method,
                port,
                started_at,
                consecutive_failures: (failures + 1) as u8,
            })
            &&& !block && failures < 255 && failures + 1 >= cfg.degraded_threshold ==> state == (
            StateView::Degraded { method, port, consecutive_failures: (failures + 1) as u8 })
            &&& !block && failures == 255 ==> state == (StateView::Degraded {
                method,
                port,
                consecutive_failures: 255,
            })
        }),
{
}

/// A failure of a degraded method is the end of it once the threshold was reached: what runs is
/// stopped and the state is Idle. Before that it counts one.
pub proof fn law_a_degraded_method_is_given_up_at_the_threshold(
    method: MethodId,
    port: u16,
    failures: u8,
    kind: TransportFailureKind,
    chosen: Seq<MethodId>,
    cfg: VeilConfig,
    now: Instant,
)
    requires
        kind != TransportFailureKind::TlsCertProblem,
    ensures
        ({
            let (state, effects) = transition(
                StateView::Degraded { method, port, consecutive_failures: failures },
                EventView::TransportFailure { kind },
                chosen,
                cfg,
                now,
            );
            &&& failures >= cfg.degraded_threshold ==> state == StateView::Idle && effects == seq![
                EffectView::StopActive,
            ]
            &&& failures < cfg.degraded_threshold ==> state == (StateView::Degraded {
                method,
                port,
                consecutive_failures: (failures + 1) as u8,
            }) && effects == Seq::<EffectView>::empty()
        }),
{
}

/// An event that does not belong to a state changes nothing and does nothing: a start anywhere but
/// in Idle; a probe's end, or the end of all probes, anywhere but in Probing; a probe's end for a
/// method that is no candidate; a failure of the transport where nothing is up; the cooldown's
/// timer anywhere but in Cooldown, or too early; a stop in Idle.
pub proof fn law_stray_events_change_nothing(
    state: StateView,
    event: EventView,
    chosen: Seq<MethodId>,
    cfg: VeilConfig,
    now: Instant,
)
    requires
        match event {
            EventView::Start { .. } => !(state is Idle),
            EventView::ProbeSucceeded { method, .. } => !(state is Probing)
                || !state->Probing_candidates.contains(method),
            EventView::ProbeFailed { method, .. } => !(state is Probing)
                || !state->Probing_candidates.contains(method),
            EventView::AllProbesFailed => !(state is Probing),
            EventView::TransportFailure { .. } => !(state is Active) && !(state is Degraded),
            EventView::CooldownElapsed => !(state is Cooldown) || now.nanos < state->until.nanos,
            EventView::Stop => state is Idle,
        },
    ensures
        transition(state, event, chosen, cfg, now) == (state, Seq::<EffectView>::empty()),
{
}

/// The ends of a session: a stop stops what is probing or running, and nothing else; a cooldown
/// that is over ends without any effect.
pub proof fn law_a_session_ends_in_idle(
    state: StateView,
    chosen: Seq<MethodId>,
    cfg: VeilConfig,
    now: Instant,
)
    ensures
        transition(state, EventView::Stop, chosen, cfg, now) == (
            StateView::Idle,
            if state is Idle || state is Cooldown {
                Seq::<EffectView>::empty()
            } else {
                seq![EffectView::StopActive]
            },
        ),
        state is Cooldown && now.nanos >= state->until.nanos ==> transition(
            state,
            EventView::CooldownElapsed,
            chosen,
            cfg,
            now,
        ) == (StateView::Idle, Seq::<EffectView>::empty()),
{
}

/// A method survives as many ordinary failures as the threshold says, and no more: the state after
/// so many of them in a row.
pub open spec fn after_failures(
    state: StateView,
    kinds: Seq<TransportFailureKind>,
    chosen: Seq<MethodId>,
    cfg: VeilConfig,
    now: Instant,
) -> StateView
    decreases kinds.len(),
{
    if kinds.len() == 0 {
        state
    } else {
        transition(
            after_failures(state, kinds.drop_last(), chosen, cfg, now),
            EventView::TransportFailure { kind: kinds.last() },
            chosen,
            cfg,
            now,
        ).0
    }
}

/// A fresh method stays active through one failure less than the threshold, is degraded by the
/// one that reaches it and given up by the next: after that the session is idle, whatever else
/// fails.
pub proof fn law_a_method_is_given_up_one_failure_after_the_threshold(
    method: MethodId,
    port: u16,
    started_at: Instant,
    kinds: Seq<TransportFailureKind>,
    chosen: Seq<MethodId>,
    cfg: VeilConfig,
    now: Instant,
)
    requires
        cfg.degraded_threshold > 0,
        forall|i: int|
            0 <= i < kinds.len() ==> (#[trigger] kinds[i]) != TransportFailureKind::TlsCertProblem
                && kinds[i] != TransportFailureKind::FingerprintBlocked && kinds[i]
                != TransportFailureKind::WebTunnelDecoyResponse,
    ensures
        ({
            let fresh = StateView::Active { method, port, started_at, consecutive_failures: 0 };
            let state = after_failures(fresh, kinds, chosen, cfg, now);
            let n = kinds.len();
            &&& n < cfg.degraded_threshold ==> state == (StateView::Active {
                method,
                port,
                started_at,
                consecutive_failures: n as u8,
            })
            &&& n == cfg.degraded_threshold ==> state == (StateView::Degraded {
                method,
                port,
                consecutive_failures: n as u8,
            })
            &&& n > cfg.degraded_threshold ==> state == StateView::Idle
        }),
    decreases kinds.len(),
{
    if kinds.len() > 0 {
        let front = kinds.drop_last();
        assert forall|i: int| 0 <= i < front.len() implies (#[trigger] front[i])
            != TransportFailureKind::TlsCertProblem && front[i]
            != TransportFailureKind::FingerprintBlocked && front[i]
            != TransportFailureKind::WebTunnelDecoyResponse by {
            assert(front[i] == kinds[i]);
        }
        law_a_method_is_given_up_one_failure_after_the_threshold(
            method,
            port,
            started_at,
            front,
            chosen,
            cfg,
            now,
        );
        assert(kinds[kinds.len() - 1] == kinds.last());
    }
}

}
