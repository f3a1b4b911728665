use lina_core::router::{
    effort_from_payload, effort_target, params_from_payload, plan_add_from_payload, PlanAddRequest,
    BeliefRetired,
    branch_integrated_refusal, code_changed_notices, code_changed_refusal, correction_event, plan_add_refusal,
    ClaimFacts, CorrectionEvent,
    dispatch, Dispatch,
    goal_event, params_verdict, CheckKind, GoalCriterion, GoalEvent, ParamsVerdict,
    busy_after_delivery, count_respawns_with_effort, effort_assignment, EffortAssignment, escalation, goal_advance, goal_refusal, GoalAdvance, RetryGate,
    Settlement, GuardDecision, RouteFacts,
    all_items_pass, count_item_fails, max_goal_iteration, proposed_team_of, review_verdict_allowed,
    spawn_id_exists, team_spawns, ReviewOutcome,
    stall_respawn_ids_since_reset, StallStep, HUMAN_GESTURE,
    backoff_with_jitter, delivery_ledger_entry, handoff_would_tight_loop, integrator_request_in_flight,
    intent_or_ask, is_branch_integrated_intent, is_code_changed_intent, is_delegation, is_effort_intent,
    is_goal_intent, is_hold_outcome, is_params_intent, is_plan_intent, is_presence, is_spawn_intent,
    is_transient_outcome, ladder_step, reaches, recipient_label, spawn_args, utc_day, Admission,
    AutonomyLevel, CostLedger, Effort, FailureOutcome, Gate, HoldReason, LedgerEntry, LogEvent,
    LogRecord, NodeStatus, PumpStep, RouteOutcome, Router, RouterConfig, SpawnGate, SpawnGateReason,
    Verdict, AWAIT_TIMEOUT_MS, BREAKER_THRESHOLD, DEDUPE_WINDOW_MS, DELEGATION_BUDGET,
    DELIVERY_MAX_ATTEMPTS, EFFORT_LADDER, FANOUT_GATE, MAX_CYCLE_REVISITS, MAX_DEPTH,
    MAX_SPAWNS_PER_TURN, MAX_TRANSIENT_RETRIES, NOT_READY_BACKOFF_MS, RETENTION_TIMEOUT_MS,
};

const A: u128 = 0xA;
const B: u128 = 0xB;
const C: u128 = 0xC;

fn rec(seq: u64, ts: u64, event: LogEvent) -> LogRecord {
    LogRecord { seq, ts, event }
}

fn routed(seq: u64, id: &str, root: &str, from: u128, to: u128) -> LogRecord {
    rec(
        seq,
        0,
        LogEvent::MessageRouted {
            id: id.to_string(),
            root_cause_id: root.to_string(),
            from: Some(from),
            to_node: Some(to),
            hops: 0,
        },
    )
}

fn ledger_ok() -> CostLedger {
    CostLedger { day: utc_day(0), tokens: 0, paused: false }
}

#[test]
fn retention_default_e_da_ordem_de_minutos() {
    let d = RouterConfig::default().retention_timeout_ms;
    assert_eq!(d, RETENTION_TIMEOUT_MS);
    assert!(d >= 600_000, "default ({d} ms) deve cobrir o teto observado de turnos reais (600 s)");
    assert!(d <= 3_600_000, "default ({d} ms) segue FINITO e na ordem de minutos (anti-deadlock + DLQ visível)");
}

#[test]
fn cost_window_is_daily_yesterday_excluded() {
    const DAY_MS: u64 = 86_400_000;
    let today = 1_700_000_000_000_u64;
    let yesterday = today - DAY_MS;
    let recs = vec![
        rec(1, yesterday, LogEvent::TokenUsageReported { node: Some(B), tokens: 999 }),
        rec(2, yesterday, LogEvent::CostCeilingHit),
        rec(3, today, LogEvent::TokenUsageReported { node: Some(B), tokens: 10 }),
    ];
    let ledger = CostLedger::replay(&recs, today);
    assert_eq!(ledger.day, utc_day(today), "o rótulo do dia vem do relógio (now_ms)");
    assert_eq!(ledger.tokens, 10, "só o uso de HOJE conta na janela (o de ontem não)");
    assert!(!ledger.paused, "o CostCeilingHit de ONTEM NÃO pausa hoje");

    let ledger_yest = CostLedger::replay(&recs, yesterday);
    assert_eq!(ledger_yest.tokens, 999, "ontem somava o uso de ontem");
    assert!(ledger_yest.paused, "ontem estava pausado (CostCeilingHit do dia)");
}

#[test]
fn seed_delivered_root_respects_p1() {
    let mut router = Router::new();
    router.seed_delivered_root(C, "R1".to_string(), 0, 1000);
    router.seed_delivered_root(C, "R2".to_string(), 0, 2000);
    let (root, h) = router.derive_root_hops("m-1", C);
    assert_eq!(root, "R1", "P1: binding vivo de root diferente NÃO é sobrescrito");
    assert_eq!(h, 1);
    router.seed_delivered_root(C, "R1".to_string(), 0, 3000);
    let (root2, _h2) = router.derive_root_hops("m-2", C);
    assert_eq!(root2, "R1");
}

#[test]
fn defaults_match_the_canonical_constants() {
    let c = RouterConfig::default();
    assert_eq!(c.dedupe_window_ms, DEDUPE_WINDOW_MS);
    assert_eq!(c.max_depth, MAX_DEPTH);
    assert_eq!(c.delegation_budget, DELEGATION_BUDGET);
    assert_eq!(c.max_spawns_per_turn, MAX_SPAWNS_PER_TURN);
    assert_eq!(c.fanout_gate, FANOUT_GATE);
    assert_eq!(c.await_timeout_ms, AWAIT_TIMEOUT_MS);
    assert_eq!(c.token_budget_day, 0);
    assert_eq!(c.delivery_max_attempts, DELIVERY_MAX_ATTEMPTS);
    assert_eq!(c.breaker_threshold, BREAKER_THRESHOLD);
    assert_eq!(c.autonomy, AutonomyLevel::Assisted);
    assert_eq!(c.effort_ladder, vec![Effort::Medium, Effort::High]);
    assert_eq!(EFFORT_LADDER, [Effort::Medium, Effort::High]);
}

#[test]
fn only_manual_autonomy_blocks_delegation() {
    assert!(AutonomyLevel::Manual.blocks_delegation());
    assert!(!AutonomyLevel::Assisted.blocks_delegation());
    assert!(!AutonomyLevel::Autonomous.blocks_delegation());
}

#[test]
fn intents_are_classified() {
    for i in ["ask", "handoff", "broadcast", "review", ""] {
        assert!(is_delegation(i), "{i}");
    }
    assert!(!is_delegation("handshake"));
    assert!(!is_delegation("status"));
    assert!(is_plan_intent("plan.claim") && is_plan_intent("plan.seed"));
    assert!(!is_plan_intent("plan"));
    assert!(is_spawn_intent("spawn") && !is_spawn_intent("spawned"));
    assert!(is_params_intent("params.reset") && !is_params_intent("params"));
    assert!(is_effort_intent("effort.assign"));
    assert!(is_goal_intent("goal.interpret") && !is_goal_intent("goal.close"));
    assert!(is_code_changed_intent("code.changed"));
    assert!(is_branch_integrated_intent("branch.integrated"));
    assert!(is_presence("handshake", true));
    assert!(!is_presence("handshake", false));
    assert!(!is_presence("ask", true));
    assert_eq!(intent_or_ask(""), "ask");
    assert_eq!(intent_or_ask("handoff"), "handoff");
    assert_eq!(recipient_label(true, "@all"), "*");
    assert_eq!(recipient_label(false, "@Bia"), "@Bia");
}

#[test]
fn utc_day_labels_known_instants() {
    assert_eq!(utc_day(0), "1970-01-01");
    assert_eq!(utc_day(1_700_000_000_000), "2023-11-14");
    assert_eq!(utc_day(1_700_000_000_000 - 86_400_000), "2023-11-13");
    assert_eq!(utc_day(951_782_400_000), "2000-02-29");
    assert_eq!(utc_day(86_399_999), "1970-01-01");
    assert_eq!(utc_day(86_400_000), "1970-01-02");
}

#[test]
fn cost_resume_zeroes_the_window() {
    let t = 1_700_000_000_000_u64;
    let recs = vec![
        rec(1, t, LogEvent::TokenUsageReported { node: None, tokens: 500 }),
        rec(2, t, LogEvent::CostCeilingHit),
        rec(3, t, LogEvent::CostCeilingResumed),
        rec(4, t, LogEvent::TokenUsageReported { node: None, tokens: 7 }),
    ];
    let l = CostLedger::replay(&recs, t);
    assert_eq!(l.tokens, 7);
    assert!(!l.paused);
    let l2 = CostLedger::replay(&recs[..2], t);
    assert_eq!(l2.tokens, 500);
    assert!(l2.paused);
    assert_eq!(l2.day, "2023-11-14");
}

#[test]
fn backoff_is_exponential_with_bounded_deterministic_jitter() {
    assert_eq!(backoff_with_jitter(1000, 1, "msg-1"), 1091);
    assert_eq!(backoff_with_jitter(1000, 2, "msg-1"), 2217);
    assert_eq!(backoff_with_jitter(1000, 3, "msg-1"), 4785);
    assert_eq!(backoff_with_jitter(1000, 7, "msg-1"), 71853);
    assert_eq!(backoff_with_jitter(1000, 10, "msg-1"), 67171, "exponent capped at 2^6");
    assert_eq!(backoff_with_jitter(1000, 1, ""), 1247);
    for a in 1..12u32 {
        let exp = 1000u64 << (a.saturating_sub(1).min(6));
        let r = backoff_with_jitter(1000, a, "some-id");
        assert!(exp <= r && r <= exp + exp / 4);
        assert_eq!(r, backoff_with_jitter(1000, a, "some-id"));
    }
}

#[test]
fn reaches_follows_directed_edges_through_cycles() {
    let edges = vec![(A, B), (B, C), (C, A)];
    assert!(reaches(&edges, A, C));
    assert!(reaches(&edges, C, B));
    assert!(reaches(&edges, B, B));
    let line = vec![(A, B), (B, C)];
    assert!(!reaches(&line, C, A));
    assert!(!reaches(&line, B, A));
    assert!(reaches(&Vec::new(), A, A));
    assert!(!reaches(&Vec::new(), A, B));
}

#[test]
fn dialogue_round_trip_is_not_a_tight_loop() {
    // A→B then B answers A: the hop B→A closes a cycle but was never repeated.
    let recs = vec![routed(1, "q1", "R", A, B)];
    assert!(!handoff_would_tight_loop(&recs, "R", B, A, MAX_CYCLE_REVISITS));
}

#[test]
fn tight_loop_blocked_after_revisit_limit() {
    let recs = vec![
        routed(1, "m1", "R", A, B),
        routed(2, "m2", "R", B, A),
        routed(3, "m3", "R", A, B),
        routed(4, "m4", "R", B, A),
    ];
    // A→B already twice and B reaches A: cut.
    assert!(handoff_would_tight_loop(&recs, "R", A, B, MAX_CYCLE_REVISITS));
    // Another root sees no edges.
    assert!(!handoff_would_tight_loop(&recs, "OTHER", A, B, MAX_CYCLE_REVISITS));
    // Repeated hop that closes no cycle passes.
    let one_way = vec![routed(1, "m1", "R", A, B), routed(2, "m2", "R", A, B)];
    assert!(!handoff_would_tight_loop(&one_way, "R", A, B, MAX_CYCLE_REVISITS));
}

#[test]
fn duplicate_within_window_and_new_after_it() {
    let mut r = Router::new();
    assert_eq!(r.admit_message("m1", "ask", false, 1_000), Admission::Fresh);
    assert_eq!(r.admit_message("m1", "ask", false, 1_000 + DEDUPE_WINDOW_MS - 1), Admission::Duplicate);
    assert_eq!(r.admit_message("m1", "ask", false, 1_000 + DEDUPE_WINDOW_MS), Admission::Fresh);
}

#[test]
fn pause_queues_delegations_but_not_replies() {
    let mut r = Router::new();
    assert!(!r.is_paused());
    assert!(r.pause());
    assert!(!r.pause(), "re-pausing is not a transition");
    assert!(r.is_paused());
    assert_eq!(r.admit_message("d1", "ask", false, 10), Admission::Queued);
    assert_eq!(r.admit_message("s1", "spawn", false, 10), Admission::Queued);
    assert_eq!(r.admit_message("p1", "plan.claim", false, 10), Admission::Fresh);
    assert_eq!(r.admit_message("r1", "ask", true, 10), Admission::Fresh);
    assert!(r.resume());
    assert!(!r.resume());
    assert_eq!(r.admit_message("d1", "ask", false, 20), Admission::Fresh, "queued message was never marked seen");
}

#[test]
fn orchestration_pause_state_survives_restart_via_log() {
    let recs = vec![
        rec(1, 0, LogEvent::OrchestrationPaused),
        rec(2, 0, LogEvent::OrchestrationResumed),
        rec(3, 0, LogEvent::OrchestrationPaused),
        rec(4, 0, LogEvent::Other),
    ];
    let mut r = Router::new();
    r.restore_orchestration_state(&recs);
    assert!(r.is_paused());
    r.restore_orchestration_state(&recs[..2]);
    assert!(!r.is_paused());
}

#[test]
fn gates_in_pipeline_order() {
    let r = Router::new();
    let l = ledger_ok();
    assert_eq!(r.check_gates(A, "R", MAX_DEPTH + 1, "ask", false, 1, &l), Gate::HopLimit);
    assert_eq!(r.check_gates(A, "R", 0, "ask", false, 0, &l), Gate::NoTarget);
    assert_eq!(r.check_gates(A, "R", 0, "ask", false, 1, &l), Gate::Pass);
    // Fan-out: origin broadcast reaches everyone; a cascaded one above `FANOUT_GATE` waits for a human.
    assert_eq!(r.check_gates(A, "R", 0, "broadcast", true, 10, &l), Gate::Pass);
    assert_eq!(r.check_gates(A, "R", 1, "broadcast", true, 10, &l), Gate::FanoutGated { count: 10 });
    assert_eq!(r.check_gates(A, "R", 1, "broadcast", true, FANOUT_GATE, &l), Gate::Pass);

    let manual = Router::with_config(RouterConfig { autonomy: AutonomyLevel::Manual, ..RouterConfig::default() });
    assert_eq!(manual.check_gates(A, "R", 0, "ask", false, 1, &l), Gate::BlockedByAutonomy);
    assert_eq!(manual.check_gates(A, "R", 0, "status", false, 1, &l), Gate::Pass);
}

#[test]
fn cost_ceiling_gate_hits_then_stays_paused() {
    let r = Router::with_config(RouterConfig { token_budget_day: 100, ..RouterConfig::default() });
    let under = CostLedger { day: utc_day(0), tokens: 99, paused: false };
    let at = CostLedger { day: utc_day(0), tokens: 100, paused: false };
    let paused = CostLedger { day: utc_day(0), tokens: 0, paused: true };
    assert_eq!(r.check_gates(A, "R", 0, "ask", false, 1, &under), Gate::Pass);
    assert_eq!(r.check_gates(A, "R", 0, "ask", false, 1, &at), Gate::CostCeiling { hit: true });
    assert_eq!(r.check_gates(A, "R", 0, "ask", false, 1, &paused), Gate::CostCeiling { hit: false });
    assert_eq!(r.check_gates(A, "R", 0, "status", false, 1, &at), Gate::Pass, "only delegations are capped");
}

#[test]
fn delegation_budget_is_enforced_per_root_cause_in_cascade() {
    let mut r = Router::new();
    let l = ledger_ok();
    for i in 0..DELEGATION_BUDGET {
        assert_eq!(r.check_gates(A, "R", 1, "ask", false, 1, &l), Gate::Pass, "delegation {i}");
        r.record_route(&format!("m{i}"), A, "R", None, true, 100);
    }
    assert_eq!(r.check_gates(A, "R", 1, "ask", false, 1, &l), Gate::BudgetExceeded);
    assert_eq!(r.check_gates(A, "OTHER", 1, "ask", false, 1, &l), Gate::Pass);
    assert_eq!(r.check_gates(B, "R", 1, "ask", false, 1, &l), Gate::Pass);
    assert_eq!(r.check_gates(A, "R", 0, "ask", false, 1, &l), Gate::Pass, "origin is not limited");
}

#[test]
fn budget_entries_are_pruned_after_window() {
    let mut r = Router::new();
    let l = ledger_ok();
    for i in 0..DELEGATION_BUDGET {
        r.record_route(&format!("m{i}"), A, "R", None, true, 100);
    }
    assert_eq!(r.check_gates(A, "R", 1, "ask", false, 1, &l), Gate::BudgetExceeded);
    r.prune_expired(100 + DEDUPE_WINDOW_MS);
    assert_eq!(r.check_gates(A, "R", 1, "ask", false, 1, &l), Gate::Pass);
}

#[test]
fn root_and_hops_propagate_along_chain() {
    let mut r = Router::new();
    let (root, hops) = r.derive_root_hops("m1", A);
    assert_eq!((root.as_str(), hops), ("m1", 0));
    r.record_delivery("m1", B, root, hops, 10);
    let (root_b, hops_b) = r.derive_root_hops("m2", B);
    assert_eq!((root_b.as_str(), hops_b), ("m1", 1));
    r.record_delivery("m2", C, root_b, hops_b, 20);
    assert_eq!(r.derive_root_hops("m3", C), ("m1".to_string(), 2));
}

#[test]
fn idle_binding_is_pruned_unless_awaiting() {
    let mut r = Router::new();
    r.seed_delivered_root(B, "R1".to_string(), 0, 0);
    r.seed_delivered_root(C, "R2".to_string(), 0, 0);
    r.record_route("q", C, "R2", Some(A), true, 0);
    r.prune_expired(DEDUPE_WINDOW_MS + 5);
    assert_eq!(r.derive_root_hops("x", B), ("x".to_string(), 0), "idle binding migrates");
    assert_eq!(r.derive_root_hops("x", C), ("R2".to_string(), 1), "awaiting node keeps its chain");
}

#[test]
fn retention_holds_busy_target_then_dead_letters_at_ceiling() {
    let mut r = Router::new();
    assert_eq!(r.retention_verdict("m", None, None, 0), Verdict::Pass);
    assert_eq!(r.retention_verdict("m", Some(B), Some(NodeStatus::Idle), 0), Verdict::Pass);
    assert_eq!(
        r.retention_verdict("m", Some(B), Some(NodeStatus::Busy), 0),
        Verdict::Hold { target: B, reason: HoldReason::TargetBusy }
    );
    assert!(r.hold_message("m", 1_000));
    assert!(!r.hold_message("m", 2_000), "MessageRetained only once");
    assert_eq!(
        r.retention_verdict("m", Some(B), Some(NodeStatus::Busy), 1_000 + RETENTION_TIMEOUT_MS - 1),
        Verdict::Hold { target: B, reason: HoldReason::TargetBusy }
    );
    assert_eq!(
        r.retention_verdict("m", Some(B), Some(NodeStatus::Busy), 1_000 + RETENTION_TIMEOUT_MS),
        Verdict::DeadLetter { target: B }
    );
}

#[test]
fn breaker_opens_after_threshold_and_closes_on_external_reset() {
    let mut r = Router::new();
    for i in 1..BREAKER_THRESHOLD {
        let plan = r.on_delivery_failure(&format!("m{i}"), B, A, "blk".to_string(), "R".to_string(), 0, 1_000);
        assert_eq!(plan.failures, i);
        assert!(!plan.breaker_opened);
    }
    let plan = r.on_delivery_failure("last", B, A, "blk".to_string(), "R".to_string(), 0, 1_000);
    assert_eq!(plan.failures, BREAKER_THRESHOLD);
    assert!(plan.breaker_opened);
    assert_eq!(
        r.retention_verdict("n", Some(B), Some(NodeStatus::Blocked), 2_000),
        Verdict::Hold { target: B, reason: HoldReason::CircuitOpen }
    );
    // A lifecycle/human reset took the node out of Blocked: the breaker closes.
    assert_eq!(r.retention_verdict("n", Some(B), Some(NodeStatus::Idle), 2_000), Verdict::Pass);
    let plan = r.on_delivery_failure("again", B, A, "blk".to_string(), "R".to_string(), 0, 3_000);
    assert_eq!(plan.failures, 1, "failures were forgotten");
}

#[test]
fn delivery_failures_retry_with_backoff_then_dead_letter() {
    let mut r = Router::new();
    for attempt in 1..DELIVERY_MAX_ATTEMPTS {
        let plan = r.on_delivery_failure("m", B, A, "blk".to_string(), "R".to_string(), 0, 10_000);
        let expected = 10_000 + backoff_with_jitter(1_000, attempt, "m");
        assert_eq!(plan.outcome, FailureOutcome::Retry { attempt, next_ms: expected });
        assert_eq!(r.pending_retry("m"), Some((B, attempt)));
    }
    let plan = r.on_delivery_failure("m", B, A, "blk".to_string(), "R".to_string(), 0, 10_000);
    assert_eq!(plan.outcome, FailureOutcome::DeadLetter { attempt: DELIVERY_MAX_ATTEMPTS });
    r.forget_dead_letter("m");
    assert_eq!(r.pending_retry("m"), None);
}

#[test]
fn not_ready_is_retained_not_failed() {
    let mut r = Router::new();
    assert!(r.retain_not_ready("m", B, A, "blk".to_string(), "R".to_string(), 0, 5_000));
    assert!(!r.retain_not_ready("m", B, A, "blk".to_string(), "R".to_string(), 0, 7_000));
    assert_eq!(r.pending_retry("m"), Some((B, 0)));
    assert_eq!(r.pump_step("m", None), PumpStep::Hold { outcome: RouteOutcome::Retained { to: B } });
    r.record_retry_delivery("m", B, "R".to_string(), 0, 9_000);
    assert_eq!(r.pending_retry("m"), None);
    assert_eq!(r.derive_root_hops("z", B), ("R".to_string(), 1));
    let _ = NOT_READY_BACKOFF_MS;
}

#[test]
fn await_lifecycle_open_reply_releases() {
    let mut r = Router::new();
    r.record_route("q1", A, "q1", Some(B), true, 0);
    // A reply from a non-target never closes it.
    assert_eq!(r.close_await_on_reply(Some("q1"), C, Some(A)), None);
    // A reply from the target to another destination does not close it either.
    assert_eq!(r.close_await_on_reply(Some("q1"), B, Some(C)), None);
    // A forged reply_to without ticket.
    assert_eq!(r.close_await_on_reply(Some("nope"), B, Some(A)), None);
    assert_eq!(r.close_await_on_reply(None, B, Some(A)), None);
    let t = r.close_await_on_reply(Some("q1"), B, Some(A)).expect("authentic reply closes");
    assert_eq!((t.waiter, t.target, t.opened_ms), (A, B, 0));
    assert_eq!(r.close_await_on_reply(Some("q1"), B, Some(A)), None, "consumed");
}

#[test]
fn await_timeout_closes_ticket() {
    let mut r = Router::new();
    r.record_route("q1", A, "q1", Some(B), true, 0);
    r.record_route("q2", C, "q2", Some(B), true, 100_000);
    assert!(r.sweep_await_timeouts(AWAIT_TIMEOUT_MS).is_empty(), "not strictly past");
    let closed = r.sweep_await_timeouts(AWAIT_TIMEOUT_MS + 1);
    assert_eq!(closed.len(), 1);
    assert_eq!(closed[0].0, "q1");
    assert_eq!(closed[0].1.waiter, A);
    assert_eq!(r.close_await_on_reply(Some("q1"), B, Some(A)), None);
    assert!(r.close_await_on_reply(Some("q2"), B, Some(C)).is_some());
}

#[test]
fn note_transient_gives_up_after_cap() {
    let mut r = Router::new();
    for _ in 1..MAX_TRANSIENT_RETRIES {
        assert!(r.note_transient("m"));
    }
    assert!(!r.note_transient("m"));
    r.finish_message("m");
    assert!(r.note_transient("m"), "counter cleared");
}

#[test]
fn ledger_and_pump_step_after_restart() {
    let recs = vec![
        rec(1, 0, LogEvent::MessageRouted {
            id: "m1".to_string(),
            root_cause_id: "R".to_string(),
            from: Some(A),
            to_node: Some(B),
            hops: 2,
        }),
        rec(2, 0, LogEvent::MessageDeliveryFailed { id: "m1".to_string(), attempt: 2, next_retry_ms: 777 }),
        rec(3, 0, LogEvent::MessageRouted {
            id: "m2".to_string(),
            root_cause_id: "R".to_string(),
            from: Some(A),
            to_node: Some(C),
            hops: 0,
        }),
        rec(4, 40, LogEvent::MessageRetained { id: "m2".to_string(), not_ready: true }),
        rec(5, 50, LogEvent::MessageRetained { id: "m2".to_string(), not_ready: true }),
        rec(6, 0, LogEvent::MessageRouted {
            id: "m3".to_string(),
            root_cause_id: "R".to_string(),
            from: Some(A),
            to_node: Some(C),
            hops: 0,
        }),
        rec(7, 0, LogEvent::MessageDelivered { id: "m3".to_string() }),
        rec(8, 0, LogEvent::MessageRouted {
            id: "m4".to_string(),
            root_cause_id: "R".to_string(),
            from: Some(A),
            to_node: None,
            hops: 0,
        }),
    ];
    let l1 = delivery_ledger_entry(&recs, "m1");
    assert_eq!(
        l1,
        Some(LedgerEntry {
            to_node: Some(B),
            root: "R".to_string(),
            hops: 2,
            delivered: false,
            dead: false,
            failed: Some((2, 777)),
            retained_at: None,
        })
    );
    let r = Router::new();
    assert_eq!(
        r.pump_step("m1", l1),
        PumpStep::ResumeRetry { target: B, attempt: 2, next_ms: 777, root: "R".to_string(), hops: 2 }
    );
    let l2 = delivery_ledger_entry(&recs, "m2");
    assert_eq!(l2.as_ref().and_then(|e| e.retained_at), Some(40), "first retention wins");
    assert_eq!(
        r.pump_step("m2", l2),
        PumpStep::ResumeRetention { target: C, retained_at: 40, root: "R".to_string(), hops: 0 }
    );
    assert_eq!(r.pump_step("m3", delivery_ledger_entry(&recs, "m3")), PumpStep::Acknowledge);
    assert_eq!(r.pump_step("m4", delivery_ledger_entry(&recs, "m4")), PumpStep::Acknowledge);
    assert_eq!(delivery_ledger_entry(&recs, "m9"), None);
    assert_eq!(r.pump_step("m9", None), PumpStep::Route);
    assert_eq!(delivery_ledger_entry(&recs, ""), None);
}

#[test]
fn rearm_retention_keeps_the_original_clock() {
    let mut r = Router::new();
    r.rearm_retention("m", A, B, "blk".to_string(), "R".to_string(), 0, 1_000, 5_000);
    assert_eq!(r.pending_retry("m"), Some((B, 0)));
    assert_eq!(
        r.retention_verdict("m", Some(B), Some(NodeStatus::Busy), 1_000 + RETENTION_TIMEOUT_MS),
        Verdict::DeadLetter { target: B }
    );
    r.rearm_retry("k", A, B, "blk".to_string(), "R".to_string(), 0, 3, 99);
    assert_eq!(r.pump_step("k", None), PumpStep::Hold { outcome: RouteOutcome::RetryBackoff { to: B, attempt: 3 } });
}

#[test]
fn outcome_classes() {
    assert!(is_transient_outcome(&RouteOutcome::NoTarget));
    assert!(is_transient_outcome(&RouteOutcome::UnknownSender("x".to_string())));
    assert!(!is_transient_outcome(&RouteOutcome::HopLimit));
    assert!(is_hold_outcome(&RouteOutcome::Queued));
    assert!(is_hold_outcome(&RouteOutcome::Retained { to: A }));
    assert!(is_hold_outcome(&RouteOutcome::PersistFailed("e".to_string())));
    assert!(!is_hold_outcome(&RouteOutcome::Duplicate));
}

#[test]
fn spawn_args_require_name_and_role() {
    assert_eq!(spawn_args("  @Dev ", Some("role:backend ")), Some(("@Dev".to_string(), "backend".to_string())));
    assert_eq!(spawn_args("@Dev", Some("qa")), Some(("@Dev".to_string(), "qa".to_string())));
    assert_eq!(spawn_args("@", Some("qa")), None);
    assert_eq!(spawn_args("  ", Some("qa")), None);
    assert_eq!(spawn_args("@Dev", None), None);
    assert_eq!(spawn_args("@Dev", Some("role: ")), None);
}

#[test]
fn spawn_gate_origin_cascade_cap_cost_manual() {
    let mut r = Router::new();
    assert_eq!(r.spawn_gate(A, "R", 1, false, 0), SpawnGate::Gated { reason: SpawnGateReason::Cascade });
    for _ in 0..MAX_SPAWNS_PER_TURN {
        assert_eq!(r.spawn_gate(A, "R", 0, false, 0), SpawnGate::Approved);
    }
    assert_eq!(r.spawn_gate(A, "R", 0, false, 0), SpawnGate::Gated { reason: SpawnGateReason::OverCap });
    let mut costly = Router::with_config(RouterConfig { token_budget_day: 10, ..RouterConfig::default() });
    assert_eq!(costly.spawn_gate(A, "R", 0, true, 0), SpawnGate::Gated { reason: SpawnGateReason::Cost });
    assert_eq!(costly.spawn_gate(A, "R", 0, false, 0), SpawnGate::Approved);
    let mut manual = Router::with_config(RouterConfig { autonomy: AutonomyLevel::Manual, ..RouterConfig::default() });
    assert_eq!(manual.spawn_gate(A, "R", 0, false, 0), SpawnGate::Blocked);
}

#[test]
fn effort_ladder_climbs_one_rung_per_iteration() {
    let ladder = vec![Effort::Low, Effort::Medium, Effort::High];
    assert_eq!(ladder_step(&ladder, 1), Some((Effort::Low, false)));
    assert_eq!(ladder_step(&ladder, 2), Some((Effort::Medium, true)));
    assert_eq!(ladder_step(&ladder, 3), Some((Effort::High, true)));
    assert_eq!(ladder_step(&ladder, 4), Some((Effort::High, false)), "saturated: same developer");
    assert_eq!(ladder_step(&vec![Effort::High], 2), Some((Effort::High, false)));
    assert_eq!(ladder_step(&Vec::new(), 1), None);
}

#[test]
fn integrator_request_rearms_on_new_work() {
    let req = |seq: u64, role: &str| rec(seq, 0, LogEvent::SpawnRequested { id: format!("s{seq}"), role: role.to_string(), effort: None });
    assert!(!integrator_request_in_flight(&[], "devops"));
    assert!(integrator_request_in_flight(&[req(1, "devops")], "devops"));
    assert!(!integrator_request_in_flight(&[req(1, "qa")], "devops"));
    let recs = vec![rec(1, 0, LogEvent::CodeChanged), req(2, "devops")];
    assert!(integrator_request_in_flight(&recs, "devops"));
    let recs = vec![req(1, "devops"), rec(2, 0, LogEvent::CodeChanged)];
    assert!(!integrator_request_in_flight(&recs, "devops"));
}

#[test]
fn human_gesture_accepts_only_goal_confirm_and_interpret() {
    let r = Router::new();
    let confirmed = r.human_intent("goal.confirm", r#"{"goal_id":"g1"}"#).expect("a legitimate gesture");
    assert_eq!(confirmed.goal_id, "g1");
    assert_eq!(
        confirmed.event,
        GoalEvent::Confirmed { goal_id: "g1".to_string(), by: HUMAN_GESTURE, amended_statement: None },
        "by is the human sentinel, never a roster node"
    );
    assert!(confirmed.assemble_team, "the human gesture assembles the team");
    let interpreted = r.human_intent("goal.interpret", r#"{"goal_id":"g1","proposed_team":["dev"]}"#).expect("ok");
    assert!(!interpreted.assemble_team);
    assert_eq!(
        r.human_intent("goal.confirm", "{}"),
        Err(RouteOutcome::GoalRejected("goal.confirm exige 'goal_id'".to_string()))
    );
    assert_eq!(
        r.human_intent("goal.define", r#"{"statement":"x"}"#),
        Err(RouteOutcome::GoalRejected("gesto humano direto nao suporta o intent goal.define".to_string()))
    );
}

#[test]
fn goal_command_decodes_the_payload_and_stamps_server_side() {
    let r = Router::new();
    let defined = r
        .goal_command("goal.define", r#"{"statement":"entregar X","budget_tokens":900,"goal_id":"forjado"}"#, B, "root-1", "@Maestro")
        .expect("a statement is there");
    assert_eq!(defined.goal_id.len(), 36, "the id is minted server-side");
    assert_ne!(defined.goal_id, "forjado");
    assert_eq!(
        defined.event,
        GoalEvent::Defined {
            goal_id: defined.goal_id.clone(),
            statement: "entregar X".to_string(),
            root_cause_id: "root-1".to_string(),
            origin: "@Maestro".to_string(),
            budget_tokens: 900,
        }
    );
    let interpreted = r
        .goal_command(
            "goal.interpret",
            r#"{"goal_id":"g1","interpretation":"faz X","strategy":"s","proposed_team":["dev",3,"qa"],"acceptance":[{"desc":"testes","check_kind":"Command","check_arg":"rm -rf /"}]}"#,
            B,
            "r",
            "o",
        )
        .expect("ok");
    assert_eq!(
        interpreted.event,
        GoalEvent::Interpreted {
            goal_id: "g1".to_string(),
            interpretation: "faz X".to_string(),
            strategy: "s".to_string(),
            proposed_team: vec!["dev".to_string(), "qa".to_string()],
            acceptance_criteria: vec![GoalCriterion { desc: "testes".to_string(), check_kind: CheckKind::HumanReview, check_arg: None }],
        },
        "a machine check proposed at goal level becomes a human review"
    );
    let confirmed = r.goal_command("goal.confirm", r#"{"goal_id":"g1","by":"forjado"}"#, B, "r", "o").expect("ok");
    assert_eq!(confirmed.event, GoalEvent::Confirmed { goal_id: "g1".to_string(), by: B, amended_statement: None });
    assert!(!confirmed.assemble_team, "an agent's confirmation under assisted autonomy does not assemble the team");
    assert_eq!(
        r.goal_command("goal.define", "not json", B, "r", "o"),
        Err(RouteOutcome::GoalRejected("goal.define exige 'statement'".to_string())),
        "an invalid payload reads as empty"
    );
}

#[test]
fn structured_verbs_decode_their_payloads() {
    match params_from_payload("params.set", "{", None, false, 0) {
        ParamsVerdict::Rejected(m) => assert!(m.starts_with("payload de params inválido: "), "{m}"),
        other => panic!("expected a refusal, got {other:?}"),
    }
    assert_eq!(
        params_from_payload("params.set", r#"{"key":"max_depth","scope":"global","value":"6","by":"forjado"}"#, None, false, 1),
        ParamsVerdict::Applied {
            key: "max_depth".to_string(),
            scope: "global".to_string(),
            new: "6".to_string(),
            target: None,
            by: "maestro".to_string(),
        }
    );
    assert_eq!(
        params_from_payload("params.reset", r#"{"key":"max_depth"}"#, None, false, 0),
        ParamsVerdict::Rejected("params exige 'key' e 'scope'".to_string())
    );
    assert_eq!(effort_target(r#"{"target":"@Dev","effort":"high"}"#), "@Dev");
    assert_eq!(
        effort_from_payload(r#"{"target":"@Dev","effort":"high"}"#, Some(B), A, 0),
        Ok(EffortAssignment { node: B, effort: Effort::High, by: None })
    );
    assert!(effort_from_payload("[", Some(B), A, 0).unwrap_err().starts_with("payload de effort inválido: "));
    assert_eq!(
        plan_add_from_payload(r#"{"desc":"x"}"#),
        Err(RouteOutcome::PlanRejected("plan.add exige o campo 'item'".to_string()))
    );
    assert_eq!(
        plan_add_from_payload(r#"{"item":"T1","desc":"fazer","goal_id":"g1","parents":["T0"],"budget_tokens":50,"paths":["src/a.rs"]}"#),
        Ok(PlanAddRequest {
            item: "T1".to_string(),
            desc: "fazer".to_string(),
            goal_id: Some("g1".to_string()),
            parents: vec!["T0".to_string()],
            budget_tokens: 50,
            paths: vec!["src/a.rs".to_string()],
        })
    );
}

#[test]
fn retire_belief_refuses_blank_ids() {
    let r = Router::new();
    assert_eq!(
        r.retire_belief("belief-1"),
        Some(BeliefRetired { belief_id: "belief-1".to_string(), reason: "retired_by_human".to_string() })
    );
    assert_eq!(r.retire_belief("   "), None);
    assert_eq!(r.retire_belief(""), None);
}

#[test]
fn reset_breaker_is_idempotent() {
    let mut r = Router::new();
    assert!(!r.reset_breaker(B, false), "nothing to release");
    assert!(r.reset_breaker(B, true), "a blocked node is released");
    for i in 0..BREAKER_THRESHOLD {
        r.on_delivery_failure(&format!("m{i}"), B, A, "b".to_string(), "R".to_string(), 0, 0);
    }
    assert!(r.reset_breaker(B, false), "open breaker is released");
    assert_eq!(r.retention_verdict("n", Some(B), Some(NodeStatus::Blocked), 0), Verdict::Pass);
}

#[test]
fn dispatch_watch_disarms_only_on_later_progress() {
    let mut r = Router::new();
    r.arm_dispatch(B, 1_000, 10);
    assert!(r.dispatch_pending(B));
    // Progress logged before the arming delivery does not count.
    r.sync_dispatch_progress(&[rec(9, 0, LogEvent::TokenUsageReported { node: Some(B), tokens: 5 })]);
    assert!(r.dispatch_pending(B));
    assert_eq!(r.dispatch_progress_seq(), 9);
    // A status change that is neither output nor death says nothing.
    r.sync_dispatch_progress(&[rec(
        11,
        0,
        LogEvent::NodeStatusChanged { node: Some(B), busy_output: false, dead: false, breaker_reset: false },
    )]);
    assert!(r.dispatch_pending(B));
    r.sync_dispatch_progress(&[rec(12, 0, LogEvent::MessageRouted {
        id: "x".to_string(),
        root_cause_id: "R".to_string(),
        from: Some(B),
        to_node: Some(C),
        hops: 1,
    })]);
    assert!(!r.dispatch_pending(B), "delegating onward is progress");
    assert_eq!(r.dispatch_progress_seq(), 12);
    r.sync_dispatch_progress(&[]);
    assert_eq!(r.dispatch_progress_seq(), 12);
}

#[test]
fn swallowed_nodes_need_the_window_and_idle() {
    let mut r = Router::new();
    r.arm_dispatch(B, 1_000, 1);
    r.arm_dispatch(C, 5_000, 2);
    let window = 90_000;
    assert!(r.swallowed_nodes(1_000 + window - 1, window, &[B, C]).is_empty());
    assert_eq!(r.swallowed_nodes(1_000 + window, window, &[B, C]), vec![(B, 1_000)]);
    assert!(r.swallowed_nodes(1_000 + window, window, &[C]).is_empty(), "a busy node is not swallowed");
    let mut both = r.swallowed_nodes(10_000 + window, window, &[B, C]);
    both.sort();
    assert_eq!(both, vec![(B, 1_000), (C, 5_000)]);
}

#[test]
fn stall_protocol_redispatches_once_then_escalates() {
    let mut r = Router::new();
    assert_eq!(r.stall_step(B, false, false, true), StallStep::Skip, "no goal item: detection only");
    assert_eq!(r.stall_step(B, true, false, true), StallStep::Redispatch);
    assert_eq!(r.stall_step(B, true, true, false), StallStep::Skip, "same epoch: wait");
    assert_eq!(r.stall_step(B, true, false, false), StallStep::Escalate);
    r.open_stall_breaker(B);
    assert_eq!(r.stall_step(B, true, false, false), StallStep::Skip, "sticky breaker");
    assert_eq!(
        r.retention_verdict("m", Some(B), Some(NodeStatus::Blocked), 0),
        Verdict::Hold { target: B, reason: HoldReason::CircuitOpen }
    );
    assert!(r.reset_breaker(B, true));
    assert_eq!(r.stall_step(B, true, false, true), StallStep::Redispatch);
}

#[test]
fn stall_respawn_ids_are_scoped_after_the_reset() {
    let spawn = |seq: u64, id: &str| rec(seq, 0, LogEvent::SpawnRequested { id: id.to_string(), role: "dev".to_string(), effort: None });
    let reset = |seq: u64, node: u128| rec(
        seq,
        0,
        LogEvent::NodeStatusChanged { node: Some(node), busy_output: false, dead: false, breaker_reset: true },
    );
    let recs = vec![
        spawn(1, "stall-respawn:nb:100"),
        spawn(2, "stall-respawn:nc:100"),
        reset(3, C),
        spawn(4, "stall-respawn:nb:200"),
        spawn(5, "goal-team:g:dev"),
    ];
    assert_eq!(stall_respawn_ids_since_reset(&recs, B, "nb"), vec!["stall-respawn:nb:100", "stall-respawn:nb:200"]);
    assert!(stall_respawn_ids_since_reset(&recs, C, "nc").is_empty(), "the reset restarted C's protocol");
    let recs2 = vec![spawn(1, "stall-respawn:nb:100"), reset(2, B)];
    assert!(stall_respawn_ids_since_reset(&recs2, B, "nb").is_empty());
}

#[test]
fn goal_confirmation_assembles_team_only_by_human_or_autonomous() {
    let r = Router::new();
    assert!(r.confirm_assembles_team(HUMAN_GESTURE));
    assert!(!r.confirm_assembles_team(A));
    let auto = Router::with_config(RouterConfig { autonomy: AutonomyLevel::Autonomous, ..RouterConfig::default() });
    assert!(auto.confirm_assembles_team(A));
}

fn verdict(seq: u64, goal: &str, item: &str, v: ReviewOutcome, iteration: u64) -> LogRecord {
    rec(seq, 0, LogEvent::ReviewVerdict {
        goal_id: goal.to_string(),
        plan_item: item.to_string(),
        verdict: v,
        iteration,
    })
}

#[test]
fn outer_loop_reads_verdicts_from_the_log() {
    let recs = vec![
        verdict(1, "g", "i1", ReviewOutcome::Fail, 1),
        verdict(2, "g", "i1", ReviewOutcome::Fail, 2),
        verdict(3, "g", "i2", ReviewOutcome::Pass, 1),
        verdict(4, "h", "i1", ReviewOutcome::Fail, 7),
        verdict(5, "g", "i1", ReviewOutcome::Pass, 3),
    ];
    assert_eq!(count_item_fails(&recs, "g", "i1"), 2);
    assert_eq!(count_item_fails(&recs, "g", "i2"), 0);
    assert_eq!(max_goal_iteration(&recs, "g"), 3);
    assert_eq!(max_goal_iteration(&recs, "h"), 7);
    assert_eq!(max_goal_iteration(&recs, "none"), 0);
    let items = vec!["i1".to_string(), "i2".to_string()];
    assert!(all_items_pass(&recs, &items, "g"));
    assert!(!all_items_pass(&recs[..4], &items, "g"), "i1's last verdict was a Fail");
    assert!(!all_items_pass(&recs, &[], "g"), "a goal without items has nothing to close");
    assert!(!all_items_pass(&recs, &["i3".to_string()], "g"), "no verdict yet");
}

#[test]
fn team_assembly_is_idempotent() {
    let interp = |seq: u64, team: &[&str]| rec(seq, 0, LogEvent::GoalInterpreted {
        goal_id: "g".to_string(),
        proposed_team: team.iter().map(|s| s.to_string()).collect(),
    });
    let recs = vec![interp(1, &["dev", "qa"]), interp(2, &["dev", "qa", "dev", "ops"])];
    assert_eq!(proposed_team_of(&recs, "g"), vec!["dev", "qa", "dev", "ops"], "the last interpretation wins");
    assert!(proposed_team_of(&recs, "other").is_empty());
    assert_eq!(
        team_spawns(&recs, "g"),
        vec![
            ("goal-team:g:dev".to_string(), "dev".to_string()),
            ("goal-team:g:qa".to_string(), "qa".to_string()),
            ("goal-team:g:ops".to_string(), "ops".to_string()),
        ]
    );
    let mut later = recs.clone();
    later.push(rec(3, 0, LogEvent::SpawnRequested { id: "goal-team:g:dev".to_string(), role: "dev".to_string(), effort: None }));
    assert!(spawn_id_exists(&later, "goal-team:g:dev"));
    assert!(!spawn_id_exists(&later, "goal-team:g:qa"));
    assert_eq!(
        team_spawns(&later, "g"),
        vec![
            ("goal-team:g:qa".to_string(), "qa".to_string()),
            ("goal-team:g:ops".to_string(), "ops".to_string()),
        ]
    );
}

#[test]
fn self_review_is_refused() {
    assert!(!review_verdict_allowed(A, A));
    assert!(review_verdict_allowed(0, A), "the structural judge reviews a real node");
}

#[test]
fn reason_labels_match_the_log_vocabulary() {
    assert_eq!(HoldReason::TargetBusy.label(), "target_busy");
    assert_eq!(HoldReason::CircuitOpen.label(), "circuit_open");
    assert_eq!(SpawnGate::Approved.reason_label(), None);
    assert_eq!(SpawnGate::Blocked.reason_label().as_deref(), Some("manual"));
    assert_eq!(SpawnGate::Gated { reason: SpawnGateReason::Cascade }.reason_label().as_deref(), Some("cascade"));
    assert_eq!(SpawnGate::Gated { reason: SpawnGateReason::OverCap }.reason_label().as_deref(), Some("over_cap"));
    assert_eq!(SpawnGate::Gated { reason: SpawnGateReason::Cost }.reason_label().as_deref(), Some("cost"));
}

fn facts(sender: u128, target: u128) -> RouteFacts {
    RouteFacts {
        sender,
        is_broadcast: false,
        single_target: Some(target),
        single_status: Some(NodeStatus::Idle),
        to_node: Some(target),
        first_target: Some(target),
        targets: 1,
        tight_loop: false,
        await_deadlock: false,
    }
}

#[test]
fn guard_pipeline_routes_and_holds() {
    let mut r = Router::new();
    let l = ledger_ok();
    assert_eq!(
        r.guard_message("m1", "ask", None, false, &facts(A, B), &l, 0),
        GuardDecision::Route { root: "m1".to_string(), hops: 0, closed_await: None }
    );
    let busy = RouteFacts { single_status: Some(NodeStatus::Busy), ..facts(A, B) };
    assert_eq!(
        r.guard_message("m2", "ask", None, false, &busy, &l, 10),
        GuardDecision::Held { target: B, reason: HoldReason::TargetBusy, first: true }
    );
    assert_eq!(
        r.guard_message("m2", "ask", None, false, &busy, &l, 20),
        GuardDecision::Held { target: B, reason: HoldReason::TargetBusy, first: false }
    );
    assert_eq!(
        r.guard_message("m2", "ask", None, false, &busy, &l, 10 + RETENTION_TIMEOUT_MS),
        GuardDecision::DeadLetter { target: B }
    );
}

#[test]
fn forged_hops_are_ignored_and_hop_limit_uses_the_binding() {
    let mut r = Router::new();
    let l = ledger_ok();
    r.seed_delivered_root(A, "R".to_string(), MAX_DEPTH, 0);
    assert_eq!(
        r.guard_message("m", "ask", None, false, &facts(A, B), &l, 0),
        GuardDecision::Refused { gate: Gate::HopLimit }
    );
}

#[test]
fn tight_loop_is_cut_unless_an_authentic_reply_or_a_swallowed_target() {
    let mut r = Router::new();
    let l = ledger_ok();
    let looping = RouteFacts { tight_loop: true, ..facts(A, B) };
    assert_eq!(r.guard_message("m1", "ask", None, false, &looping, &l, 0), GuardDecision::LoopDetected);
    assert_eq!(
        r.guard_message("m2", "status", None, false, &looping, &l, 0),
        GuardDecision::Route { root: "m2".to_string(), hops: 0, closed_await: None },
        "only delegations are checked"
    );
    // An authentic reply closes its await and skips the guard.
    r.record_route("q", B, "q", Some(A), true, 0);
    let reply = RouteFacts { tight_loop: true, to_node: Some(B), ..facts(A, B) };
    match r.guard_message("m3", "ask", Some("q"), false, &reply, &l, 0) {
        GuardDecision::Route { closed_await: Some(t), .. } => assert_eq!((t.waiter, t.target), (B, A)),
        other => panic!("unexpected {other:?}"),
    }
    // A forged reply_to does not.
    assert_eq!(r.guard_message("m4", "ask", Some("q"), false, &reply, &l, 0), GuardDecision::LoopDetected);
    // A re-dispatch to a swallowed target is exempt.
    r.arm_dispatch(B, 0, 1);
    assert!(matches!(r.guard_message("m5", "ask", None, false, &looping, &l, 0), GuardDecision::Route { .. }));
}

#[test]
fn guard_refuses_an_await_reported_as_deadlock() {
    let mut r = Router::new();
    let l = ledger_ok();
    let dl = RouteFacts { await_deadlock: true, ..facts(A, B) };
    assert_eq!(r.guard_message("m", "ask", None, true, &dl, &l, 0), GuardDecision::Deadlock);
    assert!(matches!(r.guard_message("n", "ask", None, false, &dl, &l, 0), GuardDecision::Route { .. }));
}

#[test]
fn settle_acks_definitive_outcomes_and_retains_transient_ones() {
    let mut r = Router::new();
    assert_eq!(r.settle("m", &RouteOutcome::Queued), Settlement::Hold);
    assert_eq!(r.settle("m", &RouteOutcome::RetryBackoff { to: B, attempt: 1 }), Settlement::Hold);
    for _ in 1..MAX_TRANSIENT_RETRIES {
        assert_eq!(r.settle("t", &RouteOutcome::NoTarget), Settlement::RetainTransient);
    }
    assert_eq!(r.settle("t", &RouteOutcome::UnknownSender("@x".to_string())), Settlement::DeadLetterTransient);
    assert_eq!(r.settle("t", &RouteOutcome::DeadLettered { reason: "x".to_string() }), Settlement::Acknowledge);
    assert_eq!(r.settle("t", &RouteOutcome::NoTarget), Settlement::RetainTransient, "counter cleared by the ack");
    assert_eq!(r.settle("d", &RouteOutcome::Delivered { targets: vec![B] }), Settlement::Acknowledge);
}

fn respawn(seq: u64, id: &str, effort: Effort) -> LogRecord {
    rec(seq, 0, LogEvent::SpawnRequested { id: id.to_string(), role: "dev".to_string(), effort: Some(effort) })
}

#[test]
fn respawn_count_ignores_team_assembly_other_items_and_efforts() {
    let recs = vec![
        respawn(1, "goal-team:g:dev", Effort::High),
        respawn(1, "stall-respawn:goal-respawn:g:T1::1", Effort::High),
        respawn(2, "goal-respawn:g:T1:1", Effort::Medium),
        respawn(3, "goal-newdev:g:T1:1", Effort::High),
        respawn(4, "goal-respawn:g:T2:1", Effort::High),
        respawn(5, "goal-respawn:h:T1:1", Effort::High),
        rec(6, 0, LogEvent::SpawnRequested { id: "goal-respawn:g:T1:2".to_string(), role: "dev".to_string(), effort: None }),
    ];
    assert_eq!(count_respawns_with_effort(&recs, "g", "T1", Effort::High), 1);
    assert_eq!(count_respawns_with_effort(&recs, "g", "T1", Effort::Medium), 1);
    assert_eq!(count_respawns_with_effort(&recs, "g", "T1", Effort::Low), 0);
    assert_eq!(count_respawns_with_effort(&recs, "g", "T2", Effort::High), 1);
    assert_eq!(count_respawns_with_effort(&[], "g", "T1", Effort::High), 0);
}

#[test]
fn escalation_redispatches_same_dev_then_new_dev_with_higher_effort() {
    let ladder = vec![Effort::Medium, Effort::High];
    let mut recs: Vec<LogRecord> = Vec::new();
    let first = escalation(&ladder, &recs, "g", "T1", "@Dev", 1).expect("first failure escalates");
    assert_eq!(first.id, "goal-respawn:g:T1:1");
    assert_eq!(first.name, "@Dev", "same developer");
    assert_eq!(first.effort, Effort::Medium);
    assert!(!first.new_dev);
    recs.push(respawn(1, &first.id, first.effort));
    let second = escalation(&ladder, &recs, "g", "T1", "@Dev", 2).expect("rung goes up");
    assert_eq!(second.id, "goal-newdev:g:T1:1");
    assert_eq!(second.name, "@Dev#reforco1", "a new developer");
    assert_eq!(second.effort, Effort::High);
    assert!(second.new_dev);
}

#[test]
fn escalation_sticky_breaker_suppresses_identical_respawn() {
    let ladder = vec![Effort::High];
    let mut recs: Vec<LogRecord> = Vec::new();
    let first = escalation(&ladder, &recs, "g", "T1", "@Dev", 1).expect("first failure escalates");
    assert_eq!(first.id, "goal-respawn:g:T1:1");
    assert_eq!(first.effort, Effort::High);
    recs.push(respawn(1, &first.id, first.effort));
    assert!(escalation(&ladder, &recs, "g", "T1", "@Dev", 2).is_none(), "identical re-spawn suppressed");
    assert!(escalation(&ladder, &recs, "g", "T1", "@Dev", 3).is_none());
    assert!(escalation(&ladder, &recs, "g", "T2", "@Dev", 2).is_some(), "another item still escalates");
    assert!(escalation(&Vec::new(), &recs, "g", "T1", "@Dev", 1).is_none(), "no ladder, nothing to escalate");
}

#[test]
fn due_retries_lists_exactly_the_scheduled_ones() {
    let mut r = Router::new();
    r.retain_not_ready("a", B, A, "blk".to_string(), "R".to_string(), 0, 1_000);
    r.retain_not_ready("b", C, A, "blk".to_string(), "R".to_string(), 0, 5_000);
    assert!(r.due_retries(1_000).is_empty());
    assert_eq!(r.due_retries(1_000 + NOT_READY_BACKOFF_MS), vec!["a".to_string()]);
    let mut both = r.due_retries(5_000 + NOT_READY_BACKOFF_MS);
    both.sort();
    assert_eq!(both, vec!["a".to_string(), "b".to_string()]);
}

#[test]
fn retry_gate_waits_on_busy_and_blocked_breaker() {
    let mut r = Router::new();
    assert!(matches!(r.retry_gate("none", Some(NodeStatus::Idle)), RetryGate::Wait));
    r.retain_not_ready("m", B, A, "blk".to_string(), "R".to_string(), 3, 1_000);
    assert!(matches!(r.retry_gate("m", Some(NodeStatus::Busy)), RetryGate::Wait), "busy target: no attempt burnt");
    match r.retry_gate("m", Some(NodeStatus::Idle)) {
        RetryGate::Attempt { state } => {
            assert_eq!(state.target, B);
            assert_eq!(state.from, A);
            assert_eq!(state.block, "blk");
            assert_eq!(state.root, "R");
            assert_eq!(state.hops, 3);
            assert_eq!(state.attempts, 0);
        }
        RetryGate::Wait => panic!("an idle target is attempted"),
    }
    for i in 0..BREAKER_THRESHOLD {
        r.on_delivery_failure(&format!("f{i}"), B, A, "b".to_string(), "R".to_string(), 0, 1_000);
    }
    assert!(matches!(r.retry_gate("m", Some(NodeStatus::Blocked)), RetryGate::Wait), "breaker open on a blocked node");
    assert!(matches!(r.retry_gate("m", Some(NodeStatus::Idle)), RetryGate::Attempt { .. }), "reset outside: breaker closes");
    let plan = r.on_delivery_failure("g", B, A, "b".to_string(), "R".to_string(), 0, 2_000);
    assert_eq!(plan.failures, 1, "failures were forgotten with the breaker");
}

#[test]
fn retry_not_ready_reschedules_until_the_retention_ceiling() {
    let mut r = Router::new();
    r.retain_not_ready("m", B, A, "blk".to_string(), "R".to_string(), 0, 1_000);
    assert!(!r.retry_not_ready("m", 50_000));
    assert!(r.due_retries(50_000).is_empty(), "rescheduled later");
    assert_eq!(r.due_retries(50_000 + NOT_READY_BACKOFF_MS), vec!["m".to_string()]);
    assert_eq!(r.pending_retry("m"), Some((B, 0)), "still a retention, no attempt burnt");
    assert!(r.retry_not_ready("m", 1_000 + RETENTION_TIMEOUT_MS), "total retention time reached the ceiling");
    assert!(!r.retry_not_ready("unknown", 1_000), "no retention recorded: counted from now");
}

#[test]
fn goal_verbs_need_their_fields() {
    let rejected = |m: &str| Some(RouteOutcome::GoalRejected(m.to_string()));
    assert_eq!(goal_refusal("goal.define", "", "g"), rejected("goal.define exige 'statement'"));
    assert_eq!(goal_refusal("goal.define", "entregar X", ""), None);
    assert_eq!(goal_refusal("goal.interpret", "s", ""), rejected("goal.interpret exige 'goal_id'"));
    assert_eq!(goal_refusal("goal.interpret", "", "g1"), None);
    assert_eq!(goal_refusal("goal.confirm", "s", ""), rejected("goal.confirm exige 'goal_id'"));
    assert_eq!(goal_refusal("goal.confirm", "", "g1"), None);
    assert_eq!(goal_refusal("goal.achieve", "s", "g1"), rejected("intent de goal desconhecido: goal.achieve"));
}

#[test]
fn goal_closes_only_when_every_item_passes() {
    let items = vec!["T1".to_string(), "T2".to_string()];
    let mut recs = vec![verdict(1, "g", "T1", ReviewOutcome::Fail, 1), verdict(2, "g", "T1", ReviewOutcome::Pass, 2)];
    assert_eq!(goal_advance(&recs, &items, "g", true, 2, 3), GoalAdvance::Wait, "T2 has no verdict yet");
    recs.push(verdict(3, "g", "T2", ReviewOutcome::Pass, 1));
    assert_eq!(goal_advance(&recs, &items, "g", true, 1, 3), GoalAdvance::Achieved { iterations: 2 });
    recs.push(verdict(4, "g", "T2", ReviewOutcome::Fail, 2));
    assert_eq!(goal_advance(&recs, &items, "g", true, 1, 3), GoalAdvance::Wait, "the LAST verdict counts");
    assert_eq!(goal_advance(&recs, &[], "g", true, 1, 3), GoalAdvance::Wait, "a goal without items never closes");
}

#[test]
fn turn_budget_stops_escalation() {
    let recs: Vec<LogRecord> = Vec::new();
    assert_eq!(goal_advance(&recs, &["T1".to_string()], "g", false, 2, 3), GoalAdvance::Escalate);
    assert_eq!(goal_advance(&recs, &["T1".to_string()], "g", false, 3, 3), GoalAdvance::BudgetExhausted);
    assert_eq!(goal_advance(&recs, &["T1".to_string()], "g", false, 7, 3), GoalAdvance::BudgetExhausted);
}

#[test]
fn delivery_marks_target_busy_once() {
    assert_eq!(busy_after_delivery(Some(NodeStatus::Idle)), Some(NodeStatus::Idle));
    assert_eq!(busy_after_delivery(Some(NodeStatus::Blocked)), Some(NodeStatus::Blocked));
    assert_eq!(busy_after_delivery(Some(NodeStatus::Busy)), None, "already busy: no event");
    assert_eq!(busy_after_delivery(Some(NodeStatus::Dead)), None);
    assert_eq!(busy_after_delivery(None), None);
}

#[test]
fn effort_assignment_checks_in_order() {
    let err = |m: &str| Err::<EffortAssignment, String>(m.to_string());
    assert_eq!(effort_assignment("", Some(B), A, 0, Some("high")), err("effort.assign exige 'target'"));
    assert_eq!(effort_assignment("@Dev", None, A, 0, Some("high")), err("terminal desconhecido: @Dev"));
    assert_eq!(
        effort_assignment("@Dev", Some(A), A, 1, Some("high")),
        err("auto-atribuição de effort exige Maestro/humano"),
        "an agent in cascade cannot promote itself"
    );
    assert_eq!(
        effort_assignment("@Dev", Some(A), A, 0, Some("high")),
        Ok(EffortAssignment { node: A, effort: Effort::High, by: None }),
        "the human at the origin is free"
    );
    assert_eq!(
        effort_assignment("@Dev", Some(B), A, 2, Some("medium")),
        Ok(EffortAssignment { node: B, effort: Effort::Medium, by: Some(A) }),
        "by follows the cascade, never the payload"
    );
    assert_eq!(
        effort_assignment("@Dev", Some(B), A, 0, Some("ultra")),
        err("effort inválido Some(\"ultra\"): use low, medium ou high")
    );
    assert_eq!(
        effort_assignment("@Dev", Some(B), A, 0, None),
        err("effort inválido None: use low, medium ou high")
    );
    assert_eq!(
        effort_assignment("@Dev", Some(B), A, 0, Some("a\"b")),
        err("effort inválido Some(\"a\\\"b\"): use low, medium ou high")
    );
}

#[test]
fn delivered_message_is_never_reinjected_whatever_follows() {
    let mut recs = vec![
        routed(1, "m", "R", A, B),
        rec(2, 0, LogEvent::MessageDelivered { id: "m".to_string() }),
    ];
    recs.push(rec(3, 0, LogEvent::MessageDeliveryFailed { id: "m".to_string(), attempt: 1, next_retry_ms: 9 }));
    recs.push(rec(4, 5, LogEvent::MessageRetained { id: "m".to_string(), not_ready: true }));
    recs.push(routed(5, "m", "X", C, C));
    let r = Router::new();
    let entry = delivery_ledger_entry(&recs, "m");
    assert_eq!(entry.as_ref().map(|e| e.delivered), Some(true));
    assert_eq!(entry.as_ref().map(|e| e.root.clone()), Some("R".to_string()), "the first route wins");
    assert_eq!(r.pump_step("m", entry), PumpStep::Acknowledge);
}

#[test]
fn params_verbs_check_then_stamp_by_server_side() {
    let rejected = |m: &str| ParamsVerdict::Rejected(m.to_string());
    assert_eq!(params_verdict("params.set", "", "global", "5", None, None, false, 0), rejected("params exige 'key' e 'scope'"));
    assert_eq!(params_verdict("params.bogus", "k", "", "5", None, None, false, 0), rejected("params exige 'key' e 'scope'"));
    assert_eq!(
        params_verdict("params.set", "max_depth", "global", "99", None, Some("fora da faixa 1..=8"), false, 0),
        rejected("fora da faixa 1..=8"),
        "out of range is refused, not clamped"
    );
    assert_eq!(
        params_verdict("params.set", "max_depth", "global", "1", None, None, true, 0),
        ParamsVerdict::Gated { key: "max_depth".to_string() },
        "weakening a balancing loop is gated"
    );
    assert_eq!(
        params_verdict("params.set", "max_depth", "node", "6", Some("@Dev"), None, false, 0),
        ParamsVerdict::Applied {
            key: "max_depth".to_string(),
            scope: "node".to_string(),
            new: "6".to_string(),
            target: Some("@Dev".to_string()),
            by: "human".to_string(),
        }
    );
    assert_eq!(
        params_verdict("params.reset", "max_depth", "global", "6", None, None, true, 2),
        ParamsVerdict::Applied {
            key: "max_depth".to_string(),
            scope: "global".to_string(),
            new: String::new(),
            target: None,
            by: "maestro".to_string(),
        },
        "a reset writes an empty value; the cascade stamps maestro"
    );
    assert_eq!(params_verdict("params.drop", "k", "s", "v", None, None, false, 0), rejected("intent de params desconhecido: params.drop"));
}

#[test]
fn goal_events_are_stamped_server_side() {
    let team = vec!["dev".to_string(), "qa".to_string()];
    let descs = vec!["testes passam".to_string()];
    let defined = goal_event("goal.define", "entregar X", "", "", "", &team, &descs, None, 500, B, "root-1", "@Tradutor");
    assert_eq!(
        defined,
        Ok(GoalEvent::Defined {
            goal_id: String::new(),
            statement: "entregar X".to_string(),
            root_cause_id: "root-1".to_string(),
            origin: "@Tradutor".to_string(),
            budget_tokens: 500,
        })
    );
    let interpreted = goal_event("goal.interpret", "", "g1", "faz X", "passo a passo", &team, &descs, None, 0, B, "r", "o");
    assert_eq!(
        interpreted,
        Ok(GoalEvent::Interpreted {
            goal_id: "g1".to_string(),
            interpretation: "faz X".to_string(),
            strategy: "passo a passo".to_string(),
            proposed_team: team.clone(),
            acceptance_criteria: vec![GoalCriterion {
                desc: "testes passam".to_string(),
                check_kind: CheckKind::HumanReview,
                check_arg: None,
            }],
        }),
        "every criterion becomes a human review"
    );
    assert_eq!(
        goal_event("goal.confirm", "", "g1", "", "", &team, &descs, Some("X revisado"), 0, C, "r", "o"),
        Ok(GoalEvent::Confirmed { goal_id: "g1".to_string(), by: C, amended_statement: Some("X revisado".to_string()) }),
        "by is the authenticated sender"
    );
    assert_eq!(
        goal_event("goal.confirm", "", "", "", "", &team, &descs, None, 0, C, "r", "o"),
        Err(RouteOutcome::GoalRejected("goal.confirm exige 'goal_id'".to_string()))
    );
}

#[test]
fn structured_verbs_are_intercepted_after_authentication() {
    let f = Admission::Fresh;
    assert_eq!(dispatch(Admission::Queued, "ask", false, true, true, false), Dispatch::Queued);
    assert_eq!(dispatch(Admission::Duplicate, "plan.claim", false, true, true, false), Dispatch::Duplicate);
    assert_eq!(dispatch(f, "handshake", true, false, true, false), Dispatch::Presence);
    assert_eq!(dispatch(f, "plan.claim", false, false, true, false), Dispatch::UnknownSender);
    assert_eq!(dispatch(f, "plan.claim", false, true, false, false), Dispatch::ContractRejected);
    assert_eq!(dispatch(f, "plan.claim", false, true, true, false), Dispatch::Plan);
    assert_eq!(dispatch(f, "spawn", false, true, true, false), Dispatch::Spawn);
    assert_eq!(dispatch(f, "params.set", false, true, true, false), Dispatch::Params);
    assert_eq!(dispatch(f, "effort.assign", false, true, true, false), Dispatch::Effort);
    assert_eq!(dispatch(f, "goal.define", false, true, true, false), Dispatch::Goal);
    assert_eq!(dispatch(f, "code.changed", false, true, true, false), Dispatch::CodeChanged);
    assert_eq!(dispatch(f, "branch.integrated", false, true, true, false), Dispatch::BranchIntegrated);
    assert_eq!(dispatch(f, "ask", false, true, true, true), Dispatch::Correction);
    assert_eq!(dispatch(f, "ask", false, true, true, false), Dispatch::Guardrails);
}

#[test]
fn plan_and_code_verbs_need_their_fields() {
    assert_eq!(plan_add_refusal(""), Some(RouteOutcome::PlanRejected("plan.add exige o campo 'item'".to_string())));
    assert_eq!(plan_add_refusal("T1"), None);
    assert_eq!(
        code_changed_refusal(""),
        Some(RouteOutcome::ContractRejected("code.changed exige 'branch' no payload".to_string()))
    );
    assert_eq!(code_changed_refusal("lina/a"), None);
    assert_eq!(
        branch_integrated_refusal(""),
        Some(RouteOutcome::ContractRejected("branch.integrated exige 'branch' no payload".to_string()))
    );
    assert_eq!(branch_integrated_refusal("lina/a"), None);
}

#[test]
fn code_changed_notifies_only_intersecting_claim_owners_once() {
    let claim = |owner: &str, node: Option<u128>, doing: bool, intersects: bool| ClaimFacts {
        owner: Some(owner.to_string()),
        owner_node: node,
        doing,
        intersects,
    };
    let items = vec![
        claim("@A", Some(A), true, true),
        claim("@B", Some(B), true, true),
        claim("@B", Some(B), true, true),
        claim("@C", Some(C), true, false),
        claim("@C", Some(C), false, true),
        claim("@D", None, true, true),
        ClaimFacts { owner: None, owner_node: Some(C), doing: true, intersects: true },
    ];
    assert_eq!(code_changed_notices("@A", &items), vec![B], "not the author, not disjoint, once per owner");
}

#[test]
fn correction_role_is_the_projected_one() {
    assert_eq!(
        correction_event(Some("qa"), "use o padrão X", "m7"),
        CorrectionEvent { role: "qa".to_string(), summary: "use o padrão X".to_string(), refs: vec!["m7".to_string()] }
    );
    assert_eq!(correction_event(None, "s", "m8").role, "");
}
