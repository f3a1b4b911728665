//! The supervisor's A2A router: the deterministic guardrails applied to each message (dedupe in
//! a window, anti-loop by depth, autonomy gate, fan-out gate, delegation budget per root cause,
//! anti-deadlock on awaits, retention while the target is busy, retry with backoff and circuit
//! breaker), and the event-sourced projections it reads from the log.
//!
//! Node identities are the 128-bit values of their UUIDs.

use vstd::prelude::*;

use crate::scrollback::DAY_MS;
use crate::table::{as_map, keys_unique, kv_view, KeepRule, Table};
use crate::text::{
    append_chars, chars_equal, chars_of, starts_with, starts_with_chars, string_of, trim, trim_chars,
    views,
};

verus! {

/// A node identity (the 128 bits of its UUID).
pub type NodeId = u128;

/// Dedupe window per `id`.
pub const DEDUPE_WINDOW_MS: u64 = 60_000;

/// Maximum chain depth (hops); cuts the anti-loop by depth.
pub const MAX_DEPTH: u8 = 4;

/// Ceiling of delegations per `root_cause_id` per agent.
pub const DELEGATION_BUDGET: u32 = 8;

/// Ceiling of spawns per `(root_cause_id, agent)` per turn.
pub const MAX_SPAWNS_PER_TURN: u32 = 2;

/// Above this many targets, a cascaded broadcast needs human confirmation.
pub const FANOUT_GATE: usize = 3;

/// Ceiling (ms) of an await without reply before it is closed by timeout.
pub const AWAIT_TIMEOUT_MS: u64 = 300_000;

/// How many times the same hop `sender→target` may reappear inside a cycle of the same root
/// before it is cut as a tight loop.
pub const MAX_CYCLE_REVISITS: u32 = 2;

/// Hard ceiling of outer-loop turns of a goal per item.
pub const GOAL_MAX_ITERATIONS: u32 = 3;

/// Unparseable judge verdicts in a row before the goal escalates.
pub const JUDGE_MAX_PARSE_FAILURES: u32 = 3;

/// Default ceiling of the retention behind a busy target: 10 minutes.
pub const RETENTION_TIMEOUT_MS: u64 = 600_000;

/// Default delivery attempts before the dead-letter queue.
pub const DELIVERY_MAX_ATTEMPTS: u32 = 5;

/// Default base of the exponential backoff (1 s → 1, 2, 4, 8, 16 s + jitter).
pub const DELIVERY_BACKOFF_BASE_MS: u64 = 1_000;

/// Default threshold of the circuit breaker (consecutive failures per node).
pub const BREAKER_THRESHOLD: u32 = 5;

/// Backoff between retries of a delivery held because the prompt was not ready.
pub const NOT_READY_BACKOFF_MS: u64 = 2_000;

/// Retries of a transient block (unknown sender / no target) before giving up.
pub const MAX_TRANSIENT_RETRIES: u32 = 50;

/// Sentinel node of the structural judge (the nil UUID): never a real node.
pub const STRUCTURAL_JUDGE: NodeId = 0;

/// Sentinel node of a direct human gesture from the UI (bytes spell "HUMAN").
pub const HUMAN_GESTURE: NodeId = 0x4855_4d41_4e00_0000_0000_0000_0000_0000;

/// Sentinel node of the auto-integration trigger (bytes spell "AUTOINT").
pub const INTEGRATOR_TRIGGER: NodeId = 0x4155_544f_494e_5400_0000_0000_0000_0000;

/// Execution effort of a terminal.
#[derive(Debug, Clone, Copy, PartialEq, Eq, Structural)]
pub enum Effort {
    Low,
    Medium,
    High,
}

/// The escalation ladder of effort on `Fail`: one step up per re-spawn.
pub const EFFORT_LADDER: [Effort; 2] = [Effort::Medium, Effort::High];

/// Autonomy level of the workspace. Only `Manual` changes routing (it refuses delegation).
#[derive(Debug, Clone, Copy, PartialEq, Eq, Structural)]
pub enum AutonomyLevel {
    /// Does not delegate by itself: refuses `ask`/`handoff`/`broadcast`.
    Manual,
    /// Proposes/fires delegations (the human gate lives at the point of execution).
    Assisted,
    /// Same as assisted for routing purposes.
    Autonomous,
}

impl AutonomyLevel {
    /// `true` if this level BLOCKS automatic delegations (only `Manual`).
    pub fn blocks_delegation(self) -> (r: bool)
        ensures
            r == (self == AutonomyLevel::Manual),
    {
        match self {
            AutonomyLevel::Manual => true,
            _ => false,
        }
    }
}

/// Configuration of the guardrails (canonical defaults).
#[derive(Debug, Clone)]
pub struct RouterConfig {
    pub dedupe_window_ms: u64,
    pub max_depth: u8,
    pub delegation_budget: u32,
    /// Ceiling of spawns per `(root_cause_id, agent)` per turn.
    pub max_spawns_per_turn: u32,
    pub fanout_gate: usize,
    pub autonomy: AutonomyLevel,
    /// Ceiling of an await without reply.
    pub await_timeout_ms: u64,
    /// Token ceiling per workspace per day. `0` = off.
    pub token_budget_day: u64,
    /// Ceiling of the retention behind a busy target; beyond it the message goes to the DLQ.
    pub retention_timeout_ms: u64,
    /// Delivery attempts per message before the DLQ (1-based).
    pub delivery_max_attempts: u32,
    /// Base of the exponential backoff between attempts.
    pub delivery_backoff_base_ms: u64,
    /// Consecutive delivery failures on a node until the circuit breaker opens.
    pub breaker_threshold: u32,
    /// Hard ceiling of outer-loop turns of a goal per item.
    pub goal_max_iterations: u32,
    /// Unparseable verdicts in a row until the judge is declared unreliable.
    pub judge_max_parse_failures: u32,
    /// Effort ladder of the escalation on `Fail`.
    pub effort_ladder: Vec<Effort>,
}

/// `c` holds the default guardrail configuration.
pub open spec fn is_default_config(c: RouterConfig) -> bool {
    &&& c.dedupe_window_ms == DEDUPE_WINDOW_MS
    &&& c.max_depth == MAX_DEPTH
    &&& c.delegation_budget == DELEGATION_BUDGET
    &&& c.max_spawns_per_turn == MAX_SPAWNS_PER_TURN
    &&& c.fanout_gate == FANOUT_GATE
    &&& c.autonomy == AutonomyLevel::Assisted
    &&& c.await_timeout_ms == AWAIT_TIMEOUT_MS
    &&& c.token_budget_day == 0
    &&& c.retention_timeout_ms == RETENTION_TIMEOUT_MS
    &&& c.delivery_max_attempts == DELIVERY_MAX_ATTEMPTS
    &&& c.delivery_backoff_base_ms == DELIVERY_BACKOFF_BASE_MS
    &&& c.breaker_threshold == BREAKER_THRESHOLD
    &&& c.goal_max_iterations == GOAL_MAX_ITERATIONS
    &&& c.judge_max_parse_failures == JUDGE_MAX_PARSE_FAILURES
    &&& c.effort_ladder@ == seq![Effort::Medium, Effort::High]
}

impl Default for RouterConfig {
    fn default() -> (r: Self)
        ensures
            is_default_config(r),
    {
        let r = RouterConfig {
            dedupe_window_ms: DEDUPE_WINDOW_MS,
            max_depth: MAX_DEPTH,
            delegation_budget: DELEGATION_BUDGET,
            max_spawns_per_turn: MAX_SPAWNS_PER_TURN,
            fanout_gate: FANOUT_GATE,
            autonomy: AutonomyLevel::Assisted,
            await_timeout_ms: AWAIT_TIMEOUT_MS,
            token_budget_day: 0,
            retention_timeout_ms: RETENTION_TIMEOUT_MS,
            delivery_max_attempts: DELIVERY_MAX_ATTEMPTS,
            delivery_backoff_base_ms: DELIVERY_BACKOFF_BASE_MS,
            breaker_threshold: BREAKER_THRESHOLD,
            goal_max_iterations: GOAL_MAX_ITERATIONS,
            judge_max_parse_failures: JUDGE_MAX_PARSE_FAILURES,
            effort_ladder: vec![EFFORT_LADDER[0], EFFORT_LADDER[1]],
        };
        assert(r.effort_ladder@ =~= seq![Effort::Medium, Effort::High]);
        r
    }
}


/// A node's state as the roster reports it.
#[derive(Debug, Clone, Copy, PartialEq, Eq, Structural)]
pub enum NodeStatus {
    Idle,
    Busy,
    Blocked,
    Dead,
}

/// `true` if the intent is a delegation (subject to the autonomy gate).
pub open spec fn delegation_intent(i: Seq<char>) -> bool {
    ||| i == seq!['a', 's', 'k']
    ||| i == seq!['h', 'a', 'n', 'd', 'o', 'f', 'f']
    ||| i == seq!['b', 'r', 'o', 'a', 'd', 'c', 'a', 's', 't']
    ||| i == seq!['r', 'e', 'v', 'i', 'e', 'w']
    ||| i.len() == 0
}

/// `true` if the intent asks for a spawn.
pub open spec fn spawn_intent(i: Seq<char>) -> bool {
    i == seq!['s', 'p', 'a', 'w', 'n']
}

/// `true` if the intent is a plan operation.
pub open spec fn plan_intent(i: Seq<char>) -> bool {
    ||| i == seq!['p', 'l', 'a', 'n', '.', 'c', 'l', 'a', 'i', 'm']
    ||| i == seq!['p', 'l', 'a', 'n', '.', 'c', 'h', 'e', 'c', 'k']
    ||| i == seq!['p', 'l', 'a', 'n', '.', 'a', 'd', 'd']
    ||| i == seq!['p', 'l', 'a', 'n', '.', 's', 'e', 'e', 'd']
}

/// `true` if the intent is a parameters verb.
pub open spec fn params_intent(i: Seq<char>) -> bool {
    ||| i == seq!['p', 'a', 'r', 'a', 'm', 's', '.', 's', 'e', 't']
    ||| i == seq!['p', 'a', 'r', 'a', 'm', 's', '.', 'r', 'e', 's', 'e', 't']
}

/// `true` if the intent assigns an effort.
pub open spec fn effort_intent(i: Seq<char>) -> bool {
    i == seq!['e', 'f', 'f', 'o', 'r', 't', '.', 'a', 's', 's', 'i', 'g', 'n']
}

/// `true` if the intent is a goal verb.
pub open spec fn goal_intent(i: Seq<char>) -> bool {
    ||| i == seq!['g', 'o', 'a', 'l', '.', 'd', 'e', 'f', 'i', 'n', 'e']
    ||| i == seq!['g', 'o', 'a', 'l', '.', 'i', 'n', 't', 'e', 'r', 'p', 'r', 'e', 't']
    ||| i == seq!['g', 'o', 'a', 'l', '.', 'c', 'o', 'n', 'f', 'i', 'r', 'm']
}

/// `true` if the intent signals a code change.
pub open spec fn code_changed_intent(i: Seq<char>) -> bool {
    i == seq!['c', 'o', 'd', 'e', '.', 'c', 'h', 'a', 'n', 'g', 'e', 'd']
}

/// `true` if the intent proves a branch integrated.
pub open spec fn branch_integrated_intent(i: Seq<char>) -> bool {
    i == seq!['b', 'r', 'a', 'n', 'c', 'h', '.', 'i', 'n', 't', 'e', 'g', 'r', 'a', 't', 'e', 'd']
}

fn word_is(s: &Vec<char>, w: Vec<char>) -> (r: bool)
    ensures
        r == (s@ == w@),
{
    chars_equal(s, &w)
}

/// `true` if the intent is a delegation (`ask`, `handoff`, `broadcast`, `review` or empty):
/// those pass through the autonomy gate. `handshake`/`status` delegate no work.
pub fn is_delegation(intent: &str) -> (r: bool)
    ensures
        r == delegation_intent(intent@),
{
    let i = chars_of(intent);
    i.len() == 0 || word_is(&i, vec!['a', 's', 'k']) || word_is(
        &i,
        vec!['h', 'a', 'n', 'd', 'o', 'f', 'f'],
    ) || word_is(&i, vec!['b', 'r', 'o', 'a', 'd', 'c', 'a', 's', 't']) || word_is(
        &i,
        vec!['r', 'e', 'v', 'i', 'e', 'w'],
    )
}

/// `true` if the intent is a plan operation (applied to the plan, never delivered to a PTY).
pub fn is_plan_intent(intent: &str) -> (r: bool)
    ensures
        r == plan_intent(intent@),
{
    let i = chars_of(intent);
    word_is(&i, vec!['p', 'l', 'a', 'n', '.', 'c', 'l', 'a', 'i', 'm']) || word_is(
        &i,
        vec!['p', 'l', 'a', 'n', '.', 'c', 'h', 'e', 'c', 'k'],
    ) || word_is(&i, vec!['p', 'l', 'a', 'n', '.', 'a', 'd', 'd']) || word_is(
        &i,
        vec!['p', 'l', 'a', 'n', '.', 's', 'e', 'e', 'd'],
    )
}

/// `true` if the intent is a spawn request (decided by the spawn gate, never delivered).
pub fn is_spawn_intent(intent: &str) -> (r: bool)
    ensures
        r == spawn_intent(intent@),
{
    word_is(&chars_of(intent), vec!['s', 'p', 'a', 'w', 'n'])
}

/// `true` if the intent is a parameters verb (`params.set` / `params.reset`).
pub fn is_params_intent(intent: &str) -> (r: bool)
    ensures
        r == params_intent(intent@),
{
    let i = chars_of(intent);
    word_is(&i, vec!['p', 'a', 'r', 'a', 'm', 's', '.', 's', 'e', 't']) || word_is(
        &i,
        vec!['p', 'a', 'r', 'a', 'm', 's', '.', 'r', 'e', 's', 'e', 't'],
    )
}

/// `true` if the intent is the effort assignment verb.
pub fn is_effort_intent(intent: &str) -> (r: bool)
    ensures
        r == effort_intent(intent@),
{
    word_is(
        &chars_of(intent),
        vec!['e', 'f', 'f', 'o', 'r', 't', '.', 'a', 's', 's', 'i', 'g', 'n'],
    )
}

/// `true` if the intent is a goal verb (`goal.define` / `goal.interpret` / `goal.confirm`).
pub fn is_goal_intent(intent: &str) -> (r: bool)
    ensures
        r == goal_intent(intent@),
{
    let i = chars_of(intent);
    word_is(&i, vec!['g', 'o', 'a', 'l', '.', 'd', 'e', 'f', 'i', 'n', 'e']) || word_is(
        &i,
        vec!['g', 'o', 'a', 'l', '.', 'i', 'n', 't', 'e', 'r', 'p', 'r', 'e', 't'],
    ) || word_is(&i, vec!['g', 'o', 'a', 'l', '.', 'c', 'o', 'n', 'f', 'i', 'r', 'm'])
}

/// `true` if the intent is the code-change signal.
pub fn is_code_changed_intent(intent: &str) -> (r: bool)
    ensures
        r == code_changed_intent(intent@),
{
    word_is(&chars_of(intent), vec!['c', 'o', 'd', 'e', '.', 'c', 'h', 'a', 'n', 'g', 'e', 'd'])
}

/// `true` if the intent is the proof that a branch was integrated.
pub fn is_branch_integrated_intent(intent: &str) -> (r: bool)
    ensures
        r == branch_integrated_intent(intent@),
{
    word_is(
        &chars_of(intent),
        vec!['b', 'r', 'a', 'n', 'c', 'h', '.', 'i', 'n', 't', 'e', 'g', 'r', 'a', 't', 'e', 'd'],
    )
}

/// A presence ping (`lina handshake`): intent `handshake` addressed to everyone. It delegates
/// nothing and is absorbed without a block.
pub fn is_presence(intent: &str, to_is_broadcast: bool) -> (r: bool)
    ensures
        r == (intent@ == seq!['h', 'a', 'n', 'd', 's', 'h', 'a', 'k', 'e'] && to_is_broadcast),
{
    to_is_broadcast && word_is(&chars_of(intent), vec!['h', 'a', 'n', 'd', 's', 'h', 'a', 'k', 'e'])
}

/// The intent, or `ask` when empty (the canonical default).
pub fn intent_or_ask(intent: &str) -> (r: String)
    ensures
        r@ == (if intent@.len() == 0 {
            seq!['a', 's', 'k']
        } else {
            intent@
        }),
{
    if intent.unicode_len() == 0 {
        let v: Vec<char> = vec!['a', 's', 'k'];
        string_of(&v)
    } else {
        intent.to_string()
    }
}

/// The label of the recipient in the injected block: `*` for a broadcast, else the raw `to`.
pub fn recipient_label(is_broadcast: bool, raw_to: &str) -> (r: String)
    ensures
        r@ == (if is_broadcast {
            seq!['*']
        } else {
            raw_to@
        }),
{
    if is_broadcast {
        let v: Vec<char> = vec!['*'];
        string_of(&v)
    } else {
        raw_to.to_string()
    }
}

// ---------------------------------------------------------------------------------------------
// The event log, as the router reads it.

/// The events of the log that the router's projections read.
#[derive(Debug, Clone)]
pub enum LogEvent {
    OrchestrationPaused,
    OrchestrationResumed,
    TokenUsageReported { node: Option<NodeId>, tokens: u64 },
    CostCeilingHit,
    CostCeilingResumed,
    MessageRouted {
        id: String,
        root_cause_id: String,
        from: Option<NodeId>,
        to_node: Option<NodeId>,
        hops: u8,
    },
    MessageRetained { id: String, not_ready: bool },
    MessageDelivered { id: String },
    MessageDeliveryFailed { id: String, attempt: u32, next_retry_ms: u64 },
    MessageDeadLettered { id: String },
    CodeChanged,
    /// A spawn request: its id, the role requested and the effort it carries, if any.
    SpawnRequested { id: String, role: String, effort: Option<Effort> },
    /// A node's status change: `busy_output` = went `Busy` on new PTY output (progress); `dead` =
    /// the node died; `breaker_reset` = a human released its breaker.
    NodeStatusChanged { node: Option<NodeId>, busy_output: bool, dead: bool, breaker_reset: bool },
    /// The node was removed or its terminal exited.
    NodeExited { node: Option<NodeId> },
    /// A review verdict on an item of a goal, at an iteration of the outer loop.
    ReviewVerdict { goal_id: String, plan_item: String, verdict: ReviewOutcome, iteration: u64 },
    /// A goal's interpretation, with the team it proposes (by role).
    GoalInterpreted { goal_id: String, proposed_team: Vec<String> },
    Other,
}

/// The verdict of a review.
#[derive(Debug, Clone, Copy, PartialEq, Eq, Structural)]
pub enum ReviewOutcome {
    Pass,
    Fail,
    /// Any other verdict (deferred to a human).
    Other,
}

/// One record of the log: its sequence number, timestamp (ms) and event.
#[derive(Debug, Clone)]
pub struct LogRecord {
    pub seq: u64,
    pub ts: u64,
    pub event: LogEvent,
}

/// Whether the orchestration is paused after `recs`: the last `OrchestrationPaused` /
/// `OrchestrationResumed` wins; none means running.
pub open spec fn paused_after(recs: Seq<LogRecord>) -> bool
    decreases recs.len(),
{
    if recs.len() == 0 {
        false
    } else {
        match recs.last().event {
            LogEvent::OrchestrationPaused => true,
            LogEvent::OrchestrationResumed => false,
            _ => paused_after(recs.drop_last()),
        }
    }
}

// ---------------------------------------------------------------------------------------------
// UTC day labels.

/// The civil date `(year, month, day)` of a count of days since 1970-01-01 (proleptic Gregorian,
/// by eras of 400 years).
pub open spec fn civil_from_days(days: int) -> (int, int, int) {
    let z = days + 719_468;
    let era = z / 146_097;
    let doe = z - era * 146_097;
    let yoe = (doe - doe / 1460 + doe / 36_524 - doe / 146_096) / 365;
    let y = yoe + era * 400;
    let doy = doe - (365 * yoe + yoe / 4 - yoe / 100);
    let mp = (5 * doy + 2) / 153;
    let d = doy - (153 * mp + 2) / 5 + 1;
    let m = if mp < 10 {
        mp + 3
    } else {
        mp - 9
    };
    (if m <= 2 {
        y + 1
    } else {
        y
    }, m, d)
}

/// The decimal digits of `n` (no leading zeros; `0` is `"0"`).
pub open spec fn decimal(n: nat) -> Seq<char>
    decreases n,
{
    if n < 10 {
        seq![digit_char(n)]
    } else {
        decimal(n / 10).push(digit_char(n % 10))
    }
}

/// The ASCII digit of `d < 10`.
pub open spec fn digit_char(d: nat) -> char {
    (('0' as nat) + d) as char
}

/// `s` padded on the left with zeros up to `width` characters.
pub open spec fn zero_pad(s: Seq<char>, width: nat) -> Seq<char> {
    if s.len() < width {
        Seq::new((width - s.len()) as nat, |i: int| '0') + s
    } else {
        s
    }
}

/// The `YYYY-MM-DD` label of the UTC day of an instant in ms since the epoch.
pub open spec fn utc_day_spec(now_ms: u64) -> Seq<char> {
    let (y, m, d) = civil_from_days(now_ms as int / DAY_MS as int);
    zero_pad(decimal(y as nat), 4) + seq!['-'] + zero_pad(decimal(m as nat), 2) + seq!['-']
        + zero_pad(decimal(d as nat), 2)
}

/// Bounds of the civil-from-days intermediate values within an era.
proof fn lemma_civil_bounds(doe: int)
    requires
        0 <= doe <= 146096,
    ensures
        ({
            let yoe = (doe - doe / 1460 + doe / 36524 - doe / 146096) / 365;
            let doy = doe - (365 * yoe + yoe / 4 - yoe / 100);
            let mp = (5 * doy + 2) / 153;
            let d = doy - (153 * mp + 2) / 5 + 1;
            &&& 0 <= yoe <= 399
            &&& 0 <= doy <= 365
            &&& 0 <= mp <= 11
            &&& 1 <= d <= 31
        }),
{
}

fn push_decimal(out: &mut Vec<char>, n: u64)
    ensures
        final(out)@ == old(out)@ + decimal(n as nat),
    decreases n,
{
    if n >= 10 {
        push_decimal(out, n / 10);
    }
    let c = char_of_digit((n % 10) as u8);
    out.push(c);
    proof {
        if n < 10 {
            assert(n % 10 == n);
        }
    }
}

fn char_of_digit(d: u8) -> (c: char)
    requires
        d < 10,
    ensures
        c == digit_char(d as nat),
{
    if d == 0 { '0' }
    else if d == 1 { '1' }
    else if d == 2 { '2' }
    else if d == 3 { '3' }
    else if d == 4 { '4' }
    else if d == 5 { '5' }
    else if d == 6 { '6' }
    else if d == 7 { '7' }
    else if d == 8 { '8' }
    else { '9' }
}

fn push_padded(out: &mut Vec<char>, n: u64, width: usize)
    ensures
        final(out)@ == old(out)@ + zero_pad(decimal(n as nat), width as nat),
{
    let mut digits: Vec<char> = Vec::new();
    push_decimal(&mut digits, n);
    assert(digits@ =~= decimal(n as nat));
    let ghost start = out@;
    if digits.len() < width {
        let pad = width - digits.len();
        let mut i: usize = 0;
        while i < pad
            invariant
                i <= pad,
                pad == width - digits@.len(),
                out@ == start + Seq::new(i as nat, |k: int| '0'),
            decreases pad - i,
        {
            out.push('0');
            i = i + 1;
            assert(out@ =~= start + Seq::new(i as nat, |k: int| '0'));
        }
    }
    append_chars(out, &digits);
    assert(out@ =~= start + zero_pad(decimal(n as nat), width as nat));
}

/// The UTC day (`YYYY-MM-DD`) of an instant in ms since the epoch (civil-from-days, no time
/// zone or calendar dependency): the label of the cost ceiling and its daily window.
pub fn utc_day(now_ms: u64) -> (r: String)
    ensures
        r@ == utc_day_spec(now_ms),
{
    let days = now_ms / DAY_MS;
    let z = days + 719_468;
    let era = z / 146_097;
    let doe = z - era * 146_097;
    proof {
        lemma_civil_bounds(doe as int);
    }
    let yoe = (doe - doe / 1460 + doe / 36_524 - doe / 146_096) / 365;
    let y = yoe + era * 400;
    let doy = doe - (365 * yoe + yoe / 4 - yoe / 100);
    let mp = (5 * doy + 2) / 153;
    let d = doy - (153 * mp + 2) / 5 + 1;
    let m = if mp < 10 {
        mp + 3
    } else {
        mp - 9
    };
    let year = if m <= 2 {
        y + 1
    } else {
        y
    };
    let mut out: Vec<char> = Vec::new();
    push_padded(&mut out, year, 4);
    out.push('-');
    push_padded(&mut out, m, 2);
    out.push('-');
    push_padded(&mut out, d, 2);
    proof {
        let (cy, cm, cd) = civil_from_days(now_ms as int / DAY_MS as int);
        assert(cy == year && cm == m && cd == d);
    }
    string_of(&out)
}

// ---------------------------------------------------------------------------------------------
// The cost ceiling, event-sourced.

/// `a + b`, saturating at `u64::MAX`.
pub open spec fn sat_add(a: u64, b: u64) -> u64 {
    if a + b > u64::MAX {
        u64::MAX
    } else {
        (a + b) as u64
    }
}

/// The `(tokens, paused)` of the accounting window over the records of day `day`: token usage
/// adds up (saturating); `CostCeilingHit` pauses; `CostCeilingResumed` resumes and zeroes the
/// window. Records of other days do not count.
pub open spec fn cost_window(recs: Seq<LogRecord>, day: Seq<char>) -> (u64, bool)
    decreases recs.len(),
{
    if recs.len() == 0 {
        (0, false)
    } else {
        let (tokens, paused) = cost_window(recs.drop_last(), day);
        let rec = recs.last();
        if utc_day_spec(rec.ts) != day {
            (tokens, paused)
        } else {
            match rec.event {
                LogEvent::TokenUsageReported { tokens: t, .. } => (sat_add(tokens, t), paused),
                LogEvent::CostCeilingHit => (tokens, true),
                LogEvent::CostCeilingResumed => (0, false),
                _ => (tokens, paused),
            }
        }
    }
}

/// The cost ceiling's ledger per workspace and day, rebuilt from the log.
#[derive(Debug, Clone, PartialEq, Eq)]
pub struct CostLedger {
    /// The UTC day (`YYYY-MM-DD`) of the router's clock: the label of a `CostCeilingHit`.
    pub day: String,
    /// Tokens of the current accounting window (since the last `CostCeilingResumed`).
    pub tokens: u64,
    /// `true` if the workspace is paused (the last ceiling event was a `CostCeilingHit`).
    pub paused: bool,
}

impl CostLedger {
    /// Rebuilds the ledger from the log's records, aggregating usage and ceiling state over the
    /// records of the current UTC day only: other days do not count, so the daily window resets
    /// by itself at midnight. `now_ms` gives the current day and the ceiling's label.
    pub fn replay(records: &[LogRecord], now_ms: u64) -> (r: CostLedger)
        ensures
            r.day@ == utc_day_spec(now_ms),
            (r.tokens, r.paused) == cost_window(records@, utc_day_spec(now_ms)),
    {
        let day = utc_day(now_ms);
        let day_chars = chars_of(day.as_str());
        let mut tokens: u64 = 0;
        let mut paused = false;
        let mut i: usize = 0;
        while i < records.len()
            invariant
                i <= records@.len(),
                day_chars@ == utc_day_spec(now_ms),
                (tokens, paused) == cost_window(records@.take(i as int), utc_day_spec(now_ms)),
            decreases records.len() - i,
        {
            let rec = &records[i];
            assert(records@.take(i + 1).drop_last() =~= records@.take(i as int));
            let rec_day = utc_day(rec.ts);
            if chars_equal(&chars_of(rec_day.as_str()), &day_chars) {
                match &rec.event {
                    LogEvent::TokenUsageReported { tokens: t, .. } => {
                        tokens = tokens.saturating_add(*t);
                    },
                    LogEvent::CostCeilingHit => {
                        paused = true;
                    },
                    LogEvent::CostCeilingResumed => {
                        paused = false;
                        tokens = 0;
                    },
                    _ => {},
                }
            }
            i = i + 1;
        }
        assert(records@.take(records@.len() as int) =~= records@);
        CostLedger { day, tokens, paused }
    }
}

// ---------------------------------------------------------------------------------------------
// The handoff graph and its tight-loop guard.

/// Consecutive nodes `i` and `i + 1` of `p` are joined by an edge.
pub open spec fn linked(edges: Seq<(NodeId, NodeId)>, p: Seq<NodeId>, i: int) -> bool {
    edges.contains((p[i], p[i + 1]))
}

/// `p` is a non-empty walk along `edges`.
pub open spec fn is_walk(edges: Seq<(NodeId, NodeId)>, p: Seq<NodeId>) -> bool {
    &&& p.len() >= 1
    &&& forall|i: int| 0 <= i < p.len() - 1 ==> #[trigger] linked(edges, p, i)
}

/// There is a walk `a → … → b` along `edges` (every node reaches itself).
pub open spec fn reachable(edges: Seq<(NodeId, NodeId)>, a: NodeId, b: NodeId) -> bool {
    exists|p: Seq<NodeId>| #[trigger] is_walk(edges, p) && p[0] == a && p.last() == b
}

/// Every edge leaving a node of `v` lands in `v`.
pub open spec fn closed_under(edges: Seq<(NodeId, NodeId)>, v: Seq<NodeId>) -> bool {
    forall|j: int| 0 <= j < edges.len() && v.contains(#[trigger] edges[j].0) ==> v.contains(edges[j].1)
}

/// How many edges end outside `v`.
pub open spec fn uncovered(edges: Seq<(NodeId, NodeId)>, v: Seq<NodeId>) -> nat
    decreases edges.len(),
{
    if edges.len() == 0 {
        0
    } else {
        uncovered(edges.drop_last(), v) + if v.contains(edges.last().1) {
            0nat
        } else {
            1nat
        }
    }
}

proof fn lemma_uncovered_mono(edges: Seq<(NodeId, NodeId)>, v: Seq<NodeId>, w: Seq<NodeId>)
    requires
        forall|x: NodeId| v.contains(x) ==> w.contains(x),
    ensures
        uncovered(edges, w) <= uncovered(edges, v),
    decreases edges.len(),
{
    if edges.len() > 0 {
        lemma_uncovered_mono(edges.drop_last(), v, w);
    }
}

proof fn lemma_uncovered_strict(edges: Seq<(NodeId, NodeId)>, v: Seq<NodeId>, w: Seq<NodeId>, j: int)
    requires
        forall|x: NodeId| v.contains(x) ==> w.contains(x),
        0 <= j < edges.len(),
        !v.contains(edges[j].1),
        w.contains(edges[j].1),
    ensures
        uncovered(edges, w) < uncovered(edges, v),
    decreases edges.len(),
{
    let e = edges.drop_last();
    if j == edges.len() - 1 {
        lemma_uncovered_mono(e, v, w);
    } else {
        assert(e[j] == edges[j]);
        lemma_uncovered_strict(e, v, w, j);
    }
}

proof fn lemma_reach_step(edges: Seq<(NodeId, NodeId)>, a: NodeId, f: NodeId, t: NodeId)
    requires
        reachable(edges, a, f),
        edges.contains((f, t)),
    ensures
        reachable(edges, a, t),
{
    let p = choose|p: Seq<NodeId>| #[trigger] is_walk(edges, p) && p[0] == a && p.last() == f;
    let q = p.push(t);
    assert forall|i: int| 0 <= i < q.len() - 1 implies #[trigger] linked(edges, q, i) by {
        if i < p.len() - 1 {
            assert(linked(edges, p, i));
        }
    }
    assert(is_walk(edges, q));
}

proof fn lemma_closed_walk(edges: Seq<(NodeId, NodeId)>, v: Seq<NodeId>, p: Seq<NodeId>, k: int)
    requires
        closed_under(edges, v),
        is_walk(edges, p),
        v.contains(p[0]),
        0 <= k < p.len(),
    ensures
        v.contains(p[k]),
    decreases k,
{
    if k > 0 {
        lemma_closed_walk(edges, v, p, k - 1);
        assert(linked(edges, p, k - 1));
        let j = choose|j: int| 0 <= j < edges.len() && edges[j] == (p[k - 1], p[k]);
        assert(v.contains(edges[j].0));
    }
}

fn contains_node(v: &Vec<NodeId>, x: NodeId) -> (r: bool)
    ensures
        r == v@.contains(x),
{
    let mut i: usize = 0;
    while i < v.len()
        invariant
            i <= v@.len(),
            forall|j: int| 0 <= j < i ==> v@[j] != x,
        decreases v.len() - i,
    {
        if v[i] == x {
            return true;
        }
        i = i + 1;
    }
    false
}

/// One pass over the edges: adds each target of an edge whose source is already visited.
fn extend_once(edges: &Vec<(NodeId, NodeId)>, visited: &mut Vec<NodeId>, Ghost(start): Ghost<NodeId>) -> (added: bool)
    requires
        forall|x: NodeId| old(visited)@.contains(x) ==> reachable(edges@, start, x),
    ensures
        forall|x: NodeId| old(visited)@.contains(x) ==> final(visited)@.contains(x),
        forall|x: NodeId| final(visited)@.contains(x) ==> reachable(edges@, start, x),
        !added ==> final(visited)@ == old(visited)@ && closed_under(edges@, old(visited)@),
        added ==> uncovered(edges@, final(visited)@) < uncovered(edges@, old(visited)@),
{
    let ghost v0 = visited@;
    let ghost mut w: int = 0;
    let mut added = false;
    let mut i: usize = 0;
    while i < edges.len()
        invariant
            i <= edges@.len(),
            forall|x: NodeId| v0.contains(x) ==> visited@.contains(x),
            forall|x: NodeId| visited@.contains(x) ==> reachable(edges@, start, x),
            !added ==> visited@ == v0,
            !added ==> forall|j: int| 0 <= j < i && v0.contains(#[trigger] edges@[j].0) ==> v0.contains(edges@[j].1),
            added ==> 0 <= w < edges@.len() && !v0.contains(edges@[w].1) && visited@.contains(edges@[w].1),
        decreases edges.len() - i,
    {
        let (f, t) = edges[i];
        if contains_node(visited, f) && !contains_node(visited, t) {
            proof {
                assert(edges@.contains((f, t))) by {
                    assert(edges@[i as int] == (f, t));
                }
                lemma_reach_step(edges@, start, f, t);
                if !added {
                    w = i as int;
                }
            }
            let ghost before = visited@;
            visited.push(t);
            proof {
                assert forall|x: NodeId| visited@.contains(x) implies reachable(edges@, start, x) by {
                    if x != t {
                        let k = choose|k: int| 0 <= k < visited@.len() && visited@[k] == x;
                        assert(before[k] == x);
                    }
                }
                assert forall|x: NodeId| v0.contains(x) implies visited@.contains(x) by {
                    assert(before.contains(x));
                    let k = choose|k: int| 0 <= k < before.len() && before[k] == x;
                    assert(visited@[k] == x);
                }
                if w != i {
                    let k = choose|k: int| 0 <= k < before.len() && before[k] == edges@[w].1;
                    assert(visited@[k] == edges@[w].1);
                }
                assert(visited@[visited@.len() - 1] == t);
            }
            added = true;
        }
        i = i + 1;
    }
    proof {
        if added {
            lemma_uncovered_strict(edges@, v0, visited@, w);
        }
    }
    added
}

/// `true` if there is a path `start → … → goal` in the directed graph of `edges` (a node reaches
/// itself). Safe on cycles.
pub fn reaches(edges: &Vec<(NodeId, NodeId)>, start: NodeId, goal: NodeId) -> (r: bool)
    ensures
        r == reachable(edges@, start, goal),
{
    if start == goal {
        proof {
            let p = seq![start];
            assert(is_walk(edges@, p));
        }
        return true;
    }
    let mut visited: Vec<NodeId> = vec![start];
    proof {
        let p = seq![start];
        assert(is_walk(edges@, p));
        assert forall|x: NodeId| visited@.contains(x) implies reachable(edges@, start, x) by {
            assert(visited@[0] == start);
        }
    }
    loop
        invariant
            visited@.contains(start),
            forall|x: NodeId| visited@.contains(x) ==> reachable(edges@, start, x),
        ensures
            visited@.contains(start),
            forall|x: NodeId| visited@.contains(x) ==> reachable(edges@, start, x),
            closed_under(edges@, visited@),
        decreases uncovered(edges@, visited@),
    {
        let added = extend_once(edges, &mut visited, Ghost(start));
        if !added {
            break;
        }
    }
    let r = contains_node(&visited, goal);
    proof {
        if !r && reachable(edges@, start, goal) {
            let p = choose|p: Seq<NodeId>| #[trigger] is_walk(edges@, p) && p[0] == start && p.last() == goal;
            lemma_closed_walk(edges@, visited@, p, p.len() - 1);
        }
    }
    r
}

/// The handoff edges `from → to_node` of the routed messages of one root cause (both ends known).
pub open spec fn routed_edges(recs: Seq<LogRecord>, root: Seq<char>) -> Seq<(NodeId, NodeId)>
    decreases recs.len(),
{
    if recs.len() == 0 {
        Seq::empty()
    } else {
        let e = routed_edges(recs.drop_last(), root);
        match recs.last().event {
            LogEvent::MessageRouted { root_cause_id, from, to_node, .. } => {
                if root_cause_id@ == root && from is Some && to_node is Some {
                    e.push((from->0, to_node->0))
                } else {
                    e
                }
            },
            _ => e,
        }
    }
}

/// How many times the edge `(a, b)` occurs.
pub open spec fn edge_count(edges: Seq<(NodeId, NodeId)>, a: NodeId, b: NodeId) -> nat
    decreases edges.len(),
{
    if edges.len() == 0 {
        0
    } else {
        edge_count(edges.drop_last(), a, b) + if edges.last() == (a, b) {
            1nat
        } else {
            0nat
        }
    }
}

/// Would routing `sender → target` close a TIGHT loop under `root_cause_id`? Rebuilds the edges
/// `from → to_node` of the routed messages of that root and answers `true` iff the same hop has
/// already been routed at least `max_revisits` times AND `target` already reaches `sender` (the
/// hop closes a cycle). A dialogue round trip and a chain that comes back once pass; only the
/// repeated ping-pong is cut.
pub fn handoff_would_tight_loop(
    records: &[LogRecord],
    root_cause_id: &str,
    sender: NodeId,
    target: NodeId,
    max_revisits: u32,
) -> (r: bool)
    ensures
        r == (edge_count(routed_edges(records@, root_cause_id@), sender, target) >= max_revisits
            && reachable(routed_edges(records@, root_cause_id@), target, sender)),
{
    let root = chars_of(root_cause_id);
    let mut edges: Vec<(NodeId, NodeId)> = Vec::new();
    let mut revisits: u32 = 0;
    let mut i: usize = 0;
    while i < records.len()
        invariant
            i <= records@.len(),
            root@ == root_cause_id@,
            edges@ == routed_edges(records@.take(i as int), root_cause_id@),
            revisits as nat == if edge_count(edges@, sender, target) > u32::MAX as nat {
                u32::MAX as nat
            } else {
                edge_count(edges@, sender, target)
            },
        decreases records.len() - i,
    {
        assert(records@.take(i + 1).drop_last() =~= records@.take(i as int));
        match &records[i].event {
            LogEvent::MessageRouted { root_cause_id: rc, from, to_node, .. } => {
                if chars_equal(&chars_of(rc.as_str()), &root) {
                    match (from, to_node) {
                        (Some(f), Some(t)) => {
                            if *f == sender && *t == target {
                                revisits = revisits.saturating_add(1);
                            }
                            let ghost old_edges = edges@;
                            edges.push((*f, *t));
                            assert(edges@.drop_last() =~= old_edges);
                        },
                        _ => {},
                    }
                }
            },
            _ => {},
        }
        i = i + 1;
    }
    assert(records@.take(records@.len() as int) =~= records@);
    revisits >= max_revisits && reaches(&edges, target, sender)
}

// ---------------------------------------------------------------------------------------------
// Delivery retries: exponential backoff with deterministic jitter.

/// FNV-1a offset basis (64 bits).
pub const FNV_OFFSET: u64 = 0xcbf2_9ce4_8422_2325;

/// FNV-1a prime (64 bits).
pub const FNV_PRIME: u64 = 0x0100_0000_01b3;

/// The 64-bit FNV-1a hash of `bytes`.
pub open spec fn fnv1a(bytes: Seq<u8>) -> u64
    decreases bytes.len(),
{
    if bytes.len() == 0 {
        FNV_OFFSET
    } else {
        vstd::wrapping::u64_specs::wrapping_mul(fnv1a(bytes.drop_last()) ^ (bytes.last() as u64), FNV_PRIME)
    }
}

/// `2^k` for the doubling steps of the backoff (`k <= 6`).
pub open spec fn doubling(k: nat) -> nat {
    if k == 0 { 1 }
    else if k == 1 { 2 }
    else if k == 2 { 4 }
    else if k == 3 { 8 }
    else if k == 4 { 16 }
    else if k == 5 { 32 }
    else { 64 }
}

/// The exponential part of the backoff: `base · 2^(attempt-1)`, the exponent capped at 6 and
/// the product saturating at `u64::MAX`.
pub open spec fn backoff_exp(base: u64, attempt: u32) -> u64 {
    let k: nat = if attempt <= 1 {
        0
    } else if attempt - 1 > 6 {
        6
    } else {
        (attempt - 1) as nat
    };
    if base * doubling(k) > u64::MAX {
        u64::MAX
    } else {
        (base * doubling(k)) as u64
    }
}

/// The jitter hash of `(id, attempt)`: FNV-1a over the id's UTF-8 bytes, then the attempt.
pub open spec fn jitter_hash(id: Seq<char>, attempt: u32) -> u64 {
    vstd::wrapping::u64_specs::wrapping_mul(
        fnv1a(vstd::utf8::encode_utf8(id)) ^ (attempt as u64),
        FNV_PRIME,
    )
}

/// The delay before a retry: `exp + hash(id, attempt) % (exp/4 + 1)`.
pub open spec fn backoff_spec(base: u64, attempt: u32, id: Seq<char>) -> int {
    let exp = backoff_exp(base, attempt);
    exp + (jitter_hash(id, attempt) as int) % (exp / 4 + 1)
}

fn doubling_of(k: u32) -> (r: u64)
    requires
        k <= 6,
    ensures
        r == doubling(k as nat),
{
    if k == 0 { 1 }
    else if k == 1 { 2 }
    else if k == 2 { 4 }
    else if k == 3 { 8 }
    else if k == 4 { 16 }
    else if k == 5 { 32 }
    else { 64 }
}

/// Exponential backoff with DETERMINISTIC jitter per `(id, attempt)`: `base·2^(attempt-1)`
/// (exponent capped at 6) plus `hash(id, attempt) % (exp/4 + 1)`. Reproducible in tests and
/// still spreads distinct messages apart; no clock or randomness, so a replay agrees. The delay
/// lies between `exp` and `exp + exp/4`.
pub fn backoff_with_jitter(base_ms: u64, attempt: u32, id: &str) -> (r: u64)
    requires
        backoff_spec(base_ms, attempt, id@) <= u64::MAX,
    ensures
        r == backoff_spec(base_ms, attempt, id@),
        backoff_exp(base_ms, attempt) <= r <= backoff_exp(base_ms, attempt) + backoff_exp(base_ms, attempt) / 4,
{
    let steps = attempt.saturating_sub(1);
    let k = if steps > 6 {
        6
    } else {
        steps
    };
    let exp = match base_ms.checked_mul(doubling_of(k)) {
        Some(v) => v,
        None => u64::MAX,
    };
    let bytes = id.as_bytes();
    let mut h: u64 = FNV_OFFSET;
    let mut i: usize = 0;
    while i < bytes.len()
        invariant
            i <= bytes@.len(),
            bytes@ == vstd::utf8::encode_utf8(id@),
            h == fnv1a(bytes@.take(i as int)),
        decreases bytes.len() - i,
    {
        assert(bytes@.take(i + 1).drop_last() =~= bytes@.take(i as int));
        h = h ^ (bytes[i] as u64);
        h = h.wrapping_mul(FNV_PRIME);
        i = i + 1;
    }
    assert(bytes@.take(bytes@.len() as int) =~= bytes@);
    h = h ^ (attempt as u64);
    h = h.wrapping_mul(FNV_PRIME);
    exp + (h % (exp / 4 + 1))
}

// ---------------------------------------------------------------------------------------------
// The router's guardrail state.

/// The outcome of routing ONE message: every refusal says why.
#[derive(Debug, Clone, PartialEq, Eq)]
pub enum RouteOutcome {
    /// Routed and delivered to the targets.
    Delivered { targets: Vec<NodeId> },
    /// The `id` was already seen in the dedupe window: ignored.
    Duplicate,
    /// `hops` exceeded `max_depth` (anti-loop by depth).
    HopLimit,
    /// The sender is not in the live roster.
    UnknownSender(String),
    /// No live target resolved.
    NoTarget,
    /// Autonomy `manual`: delegation refused.
    BlockedByAutonomy,
    /// A cascaded broadcast to more than `fanout_gate` targets: needs human confirmation.
    FanoutGated { count: usize },
    /// The delegation budget per root cause / agent is exhausted.
    BudgetExceeded,
    /// `--await` would close a cycle in the wait-for graph.
    Deadlock,
    /// The hop would close a repeated cycle in the handoff graph of the same root cause.
    LoopDetected,
    /// The daily token ceiling was reached: the workspace is paused.
    CostCeiling,
    /// The phased delivery failed.
    DeliveryFailed(String),
    /// Persisting to the event log failed.
    PersistFailed(String),
    /// A plan intent was applied.
    PlanApplied { intent: String, item: String },
    /// A plan intent was refused.
    PlanRejected(String),
    /// A parameters verb was applied.
    ParamsApplied { intent: String, key: String },
    /// A parameters verb was refused.
    ParamsRejected(String),
    /// A parameters change that weakens a balancing loop: gated for a human.
    ParamsGated { key: String },
    /// An effort was assigned.
    EffortApplied { node: NodeId, effort: Effort },
    /// An effort assignment was refused.
    EffortRejected(String),
    /// A goal verb was applied.
    GoalApplied { intent: String, goal_id: String },
    /// A goal verb was refused.
    GoalRejected(String),
    /// A correction sentinel was captured.
    CorrectionObserved { role: String },
    /// The orchestration is paused: the delegation was queued, not injected.
    Queued,
    /// A presence ping, absorbed.
    Presence,
    /// The envelope was refused by its shape validation.
    ContractRejected(String),
    /// The target is busy: the message is retained.
    Retained { to: NodeId },
    /// The delivery failed and is scheduled for a retry with backoff.
    RetryBackoff { to: NodeId, attempt: u32 },
    /// Moved to the dead-letter queue.
    DeadLettered { reason: String },
    /// An origin spawn was approved: the app creates the node.
    SpawnApproved {
        name: String,
        role: String,
        prompt: String,
        requested_by: NodeId,
        root_cause_id: String,
        model: Option<String>,
        effort: Option<Effort>,
    },
    /// The spawn needs human confirmation.
    SpawnGated { reason: String },
    /// The spawn was refused by `manual` autonomy.
    SpawnBlocked,
}

/// The delegation budget of a `(root_cause_id, sender)`: count, spawn count and last touch.
#[derive(Debug, Clone, Copy, PartialEq, Eq, Structural)]
pub struct BudgetEntry {
    pub count: u32,
    pub spawn_count: u32,
    pub last_ms: u64,
}

/// An open `await`: who waits, on whom, since when. Only a reply FROM `target` closes it.
#[derive(Debug, Clone, Copy, PartialEq, Eq, Structural)]
pub struct AwaitTicket {
    pub waiter: NodeId,
    pub target: NodeId,
    pub opened_ms: u64,
}

/// A message waiting for a delivery retry (after a failure) or for its target to be ready
/// (`attempts == 0`).
#[derive(Debug, Clone)]
pub struct RetryState {
    pub from: NodeId,
    pub target: NodeId,
    /// The block already rendered on the original route.
    pub block: String,
    pub root: String,
    pub hops: u8,
    pub attempts: u32,
    pub next_ms: u64,
}

/// The model of the router's state.
pub struct RouterView {
    pub config: RouterConfig,
    pub paused: bool,
    /// `id` → when it was first seen (dedupe window).
    pub seen: Map<Seq<char>, u64>,
    /// `(root_cause_id, sender)` → budget.
    pub budget: Map<(Seq<char>, NodeId), BudgetEntry>,
    /// node → `(root_cause_id, hops, last_ms)` of the last chain delivered to it.
    pub bindings: Map<NodeId, (String, u8, u64)>,
    /// question `id` → open await.
    pub pending: Map<Seq<char>, AwaitTicket>,
    /// `id` → ticks retained by a transient block.
    pub transient: Map<Seq<char>, u32>,
    /// `id` → when it was first retained.
    pub retained: Map<Seq<char>, u64>,
    /// `id` → delivery retry state.
    pub retries: Map<Seq<char>, RetryState>,
    /// node → consecutive delivery failures.
    pub failures: Map<NodeId, u32>,
    /// nodes with an open circuit breaker.
    pub breaker: Set<NodeId>,
    /// node → `(delivered_at_ms, arm_seq)` of a delivery not yet followed by progress.
    pub dispatched: Map<NodeId, (u64, u64)>,
    /// The highest log sequence already scanned for progress.
    pub progress_seq: u64,
}

/// The supervisor's router: the deterministic guardrail state (dedupe, budget, chain bindings,
/// open awaits, retention clocks, retries and circuit breakers). Single-threaded by design.
pub struct Router {
    config: RouterConfig,
    seen: Table<String, u64>,
    budget: Table<(String, NodeId), BudgetEntry>,
    delivered_root: Table<NodeId, (String, u8, u64)>,
    pending: Table<String, AwaitTicket>,
    paused: bool,
    transient_retries: Table<String, u32>,
    retained_since: Table<String, u64>,
    retries: Table<String, RetryState>,
    node_failures: Table<NodeId, u32>,
    breaker_open: Table<NodeId, bool>,
    dispatched_at: Table<NodeId, (u64, u64)>,
    dispatch_progress_seq: u64,
}

impl View for Router {
    type V = RouterView;

    closed spec fn view(&self) -> RouterView {
        RouterView {
            config: self.config,
            paused: self.paused,
            seen: self.seen.map(),
            budget: self.budget.map(),
            bindings: self.delivered_root.map(),
            pending: self.pending.map(),
            transient: self.transient_retries.map(),
            retained: self.retained_since.map(),
            retries: self.retries.map(),
            failures: self.node_failures.map(),
            breaker: self.breaker_open.map().dom(),
            dispatched: self.dispatched_at.map(),
            progress_seq: self.dispatch_progress_seq,
        }
    }
}

/// `a − b`, saturating at 0.
pub open spec fn sat_sub(a: u64, b: u64) -> u64 {
    if a >= b {
        (a - b) as u64
    } else {
        0
    }
}

/// `n + 1`, saturating at `u32::MAX`.
pub open spec fn sat_inc(n: u32) -> u32 {
    if n == u32::MAX {
        n
    } else {
        (n + 1) as u32
    }
}

/// `t` lies within `span` ms before `now`.
pub open spec fn within(now: u64, t: u64, span: u64) -> bool {
    sat_sub(now, t) < span
}

/// `t` lies more than `span` ms before `now`.
pub open spec fn past(now: u64, t: u64, span: u64) -> bool {
    sat_sub(now, t) > span
}

fn is_within(now: u64, t: u64, span: u64) -> (r: bool)
    ensures
        r == within(now, t, span),
{
    now.saturating_sub(t) < span
}

fn is_past(now: u64, t: u64, span: u64) -> (r: bool)
    ensures
        r == past(now, t, span),
{
    now.saturating_sub(t) > span
}

/// The retention clocks live up to `max(4 · retention_timeout, dedupe_window)`.
pub open spec fn retention_cap(c: RouterConfig) -> u64 {
    let four = if c.retention_timeout_ms * 4 > u64::MAX {
        u64::MAX
    } else {
        (c.retention_timeout_ms * 4) as u64
    };
    if four >= c.dedupe_window_ms {
        four
    } else {
        c.dedupe_window_ms
    }
}

/// `n` is the waiter or the awaited target of `t`.
pub open spec fn touches(t: AwaitTicket, n: NodeId) -> bool {
    t.waiter == n || t.target == n
}

/// `n` takes part in an open await (as waiter or as awaited target).
pub open spec fn awaiting(pending: Map<Seq<char>, AwaitTicket>, n: NodeId) -> bool {
    exists|q: Seq<char>| #[trigger] pending.dom().contains(q) && (pending[q].waiter == n || pending[q].target == n)
}

/// The state after pruning at `now`: dedupe entries and budgets older than the window, retention
/// clocks beyond their cap, and IDLE bindings (stale and without a pending await) are dropped.
pub open spec fn pruned(v: RouterView, now: u64) -> RouterView {
    let window = v.config.dedupe_window_ms;
    RouterView {
        seen: v.seen.restrict(Set::new(|q: Seq<char>| within(now, v.seen[q], window))),
        budget: v.budget.restrict(
            Set::new(|k: (Seq<char>, NodeId)| within(now, v.budget[k].last_ms, window)),
        ),
        retained: v.retained.restrict(
            Set::new(|q: Seq<char>| within(now, v.retained[q], retention_cap(v.config))),
        ),
        bindings: v.bindings.restrict(
            Set::new(|n: NodeId| within(now, v.bindings[n].2, window) || awaiting(v.pending, n)),
        ),
        ..v
    }
}

/// Whether the brake queues this message: paused, not a reply, and a delegation or a spawn.
pub open spec fn queued_by_brake(paused: bool, intent: Seq<char>, has_reply_to: bool) -> bool {
    paused && !has_reply_to && (delegation_intent(intent) || spawn_intent(intent))
}

/// Keeps the timestamps within `span` of `now`.
pub struct Within {
    pub now: u64,
    pub span: u64,
}

impl KeepRule<String, u64> for Within {
    open spec fn holds(&self, k: Seq<char>, v: u64) -> bool {
        within(self.now, v, self.span)
    }

    fn keep(&self, k: &String, v: &u64) -> (r: bool) {
        is_within(self.now, *v, self.span)
    }
}

/// Keeps the budgets touched within `span` of `now`.
pub struct BudgetWithin {
    pub now: u64,
    pub span: u64,
}

impl KeepRule<(String, NodeId), BudgetEntry> for BudgetWithin {
    open spec fn holds(&self, k: (Seq<char>, NodeId), v: BudgetEntry) -> bool {
        within(self.now, v.last_ms, self.span)
    }

    fn keep(&self, k: &(String, NodeId), v: &BudgetEntry) -> (r: bool) {
        is_within(self.now, v.last_ms, self.span)
    }
}

/// Keeps the chain bindings still fresh, or of a node taking part in an open await.
pub struct BindingAlive {
    pub now: u64,
    pub span: u64,
    pub awaiting: Vec<NodeId>,
}

impl KeepRule<NodeId, (String, u8, u64)> for BindingAlive {
    open spec fn holds(&self, k: NodeId, v: (String, u8, u64)) -> bool {
        within(self.now, v.2, self.span) || self.awaiting@.contains(k)
    }

    fn keep(&self, k: &NodeId, v: &(String, u8, u64)) -> (r: bool) {
        is_within(self.now, v.2, self.span) || contains_node(&self.awaiting, *k)
    }
}

/// Keeps the awaits not yet past their timeout.
pub struct NotExpired {
    pub now: u64,
    pub span: u64,
}

impl KeepRule<String, AwaitTicket> for NotExpired {
    open spec fn holds(&self, k: Seq<char>, v: AwaitTicket) -> bool {
        !past(self.now, v.opened_ms, self.span)
    }

    fn keep(&self, k: &String, v: &AwaitTicket) -> (r: bool) {
        !is_past(self.now, v.opened_ms, self.span)
    }
}

/// How a message enters the pipeline.
#[derive(Debug, Clone, Copy, PartialEq, Eq, Structural)]
pub enum Admission {
    /// The orchestration is paused: the delegation waits (not marked as seen).
    Queued,
    /// Already seen in the dedupe window.
    Duplicate,
    /// New: marked as seen.
    Fresh,
}

/// The state and answer of the admission step (brake, then prune, then dedupe).
pub open spec fn admission(v: RouterView, id: Seq<char>, intent: Seq<char>, has_reply_to: bool, now: u64) -> (Admission, RouterView) {
    if queued_by_brake(v.paused, intent, has_reply_to) {
        (Admission::Queued, v)
    } else {
        let p = pruned(v, now);
        if p.seen.dom().contains(id) {
            (Admission::Duplicate, p)
        } else {
            (Admission::Fresh, RouterView { seen: p.seen.insert(id, now), ..p })
        }
    }
}

/// The effective `(root_cause_id, hops)` of a message of `sender`: inherited from the binding
/// stamped on delivery (root, hops + 1), else the message is its own root at depth 0.
pub open spec fn root_hops(v: RouterView, msg_id: Seq<char>, sender: NodeId) -> (Seq<char>, u8) {
    if v.bindings.dom().contains(sender) {
        let b = v.bindings[sender];
        (b.0@, if b.1 == u8::MAX { b.1 } else { (b.1 + 1) as u8 })
    } else {
        (msg_id, 0)
    }
}

/// The state after binding `node` to a chain, unless it holds a binding of a DIFFERENT root
/// (which is never overwritten).
pub open spec fn bound(v: RouterView, node: NodeId, root: String, hops: u8, now: u64) -> RouterView {
    if v.bindings.dom().contains(node) && v.bindings[node].0@ != root@ {
        v
    } else {
        RouterView { bindings: v.bindings.insert(node, (root, hops, now)), ..v }
    }
}

/// Why a message is held.
#[derive(Debug, Clone, Copy, PartialEq, Eq, Structural)]
pub enum HoldReason {
    /// The target is `Busy`.
    TargetBusy,
    /// The target's circuit breaker is open.
    CircuitOpen,
}

impl HoldReason {
    /// The reason logged with `MessageRetained`: `target_busy` or `circuit_open`.
    pub fn label(&self) -> (r: String)
        ensures
            r@ == match self {
                HoldReason::TargetBusy => seq!['t', 'a', 'r', 'g', 'e', 't', '_', 'b', 'u', 's', 'y'],
                HoldReason::CircuitOpen => seq!['c', 'i', 'r', 'c', 'u', 'i', 't', '_', 'o', 'p', 'e', 'n'],
            },
    {
        let v: Vec<char> = match self {
            HoldReason::TargetBusy => vec!['t', 'a', 'r', 'g', 'e', 't', '_', 'b', 'u', 's', 'y'],
            HoldReason::CircuitOpen => vec!['c', 'i', 'r', 'c', 'u', 'i', 't', '_', 'o', 'p', 'e', 'n'],
        };
        string_of(&v)
    }
}

/// The retention verdict for a single-node destination.
#[derive(Debug, Clone, Copy, PartialEq, Eq, Structural)]
pub enum Verdict {
    /// No retention: the pipeline goes on.
    Pass,
    /// Do not inject now.
    Hold { target: NodeId, reason: HoldReason },
    /// The retention exceeded its ceiling: dead-letter it.
    DeadLetter { target: NodeId },
}

/// The retention verdict and state: past the ceiling → dead letter; open breaker on a node still
/// `Blocked` → hold; an open breaker on a node no longer blocked is closed (failures forgotten);
/// a `Busy` target → hold.
pub open spec fn retention(
    v: RouterView,
    id: Seq<char>,
    target: Option<NodeId>,
    status: Option<NodeStatus>,
    now: u64,
) -> (Verdict, RouterView) {
    match target {
        None => (Verdict::Pass, v),
        Some(t) => {
            if v.retained.dom().contains(id) && sat_sub(now, v.retained[id]) >= v.config.retention_timeout_ms {
                (Verdict::DeadLetter { target: t }, v)
            } else if v.breaker.contains(t) && status == Some(NodeStatus::Blocked) {
                (Verdict::Hold { target: t, reason: HoldReason::CircuitOpen }, v)
            } else {
                let w = if v.breaker.contains(t) {
                    RouterView { breaker: v.breaker.remove(t), failures: v.failures.remove(t), ..v }
                } else {
                    v
                };
                if status == Some(NodeStatus::Busy) {
                    (Verdict::Hold { target: t, reason: HoldReason::TargetBusy }, w)
                } else {
                    (Verdict::Pass, w)
                }
            }
        },
    }
}

/// The delegation budget used by `(root, sender)`.
pub open spec fn budget_count(v: RouterView, root: Seq<char>, sender: NodeId) -> u32 {
    if v.budget.dom().contains((root, sender)) {
        v.budget[(root, sender)].count
    } else {
        0
    }
}

/// The verdict of the delegation guardrails, in pipeline order.
#[derive(Debug, Clone, Copy, PartialEq, Eq, Structural)]
pub enum Gate {
    /// Every guardrail passed.
    Pass,
    /// Effective hops beyond `max_depth`.
    HopLimit,
    /// No live target.
    NoTarget,
    /// `manual` autonomy refuses a delegation.
    BlockedByAutonomy,
    /// A cascaded broadcast to more than `fanout_gate` targets.
    FanoutGated { count: usize },
    /// The daily token ceiling: `hit` when this call reaches it (the transition to paused).
    CostCeiling { hit: bool },
    /// The cascade's delegation budget is exhausted.
    BudgetExceeded,
}

/// The guardrails, in order: depth, target, autonomy, fan-out (cascade only), daily token
/// ceiling, delegation budget (cascade only).
pub open spec fn gate_spec(
    v: RouterView,
    sender: NodeId,
    root: Seq<char>,
    hops: u8,
    intent: Seq<char>,
    is_broadcast: bool,
    targets: usize,
    ledger_tokens: u64,
    ledger_paused: bool,
) -> Gate {
    let c = v.config;
    let deleg = delegation_intent(intent);
    if hops > c.max_depth {
        Gate::HopLimit
    } else if targets == 0 {
        Gate::NoTarget
    } else if c.autonomy == AutonomyLevel::Manual && deleg {
        Gate::BlockedByAutonomy
    } else if hops >= 1 && is_broadcast && targets > c.fanout_gate {
        Gate::FanoutGated { count: targets }
    } else if deleg && c.token_budget_day > 0 && ledger_paused {
        Gate::CostCeiling { hit: false }
    } else if deleg && c.token_budget_day > 0 && ledger_tokens >= c.token_budget_day {
        Gate::CostCeiling { hit: true }
    } else if deleg && hops >= 1 && budget_count(v, root, sender) >= c.delegation_budget {
        Gate::BudgetExceeded
    } else {
        Gate::Pass
    }
}

/// The state after a route is persisted: the await ticket opens (if any) and a delegation counts
/// against the budget of `(root, sender)` (stamped `now`).
pub open spec fn routed(
    v: RouterView,
    id: Seq<char>,
    sender: NodeId,
    root: Seq<char>,
    await_target: Option<NodeId>,
    is_deleg: bool,
    now: u64,
) -> RouterView {
    let p = match await_target {
        Some(t) => v.pending.insert(id, AwaitTicket { waiter: sender, target: t, opened_ms: now }),
        None => v.pending,
    };
    let b = if is_deleg {
        let e = if v.budget.dom().contains((root, sender)) {
            v.budget[(root, sender)]
        } else {
            BudgetEntry { count: 0, spawn_count: 0, last_ms: now }
        };
        v.budget.insert((root, sender), BudgetEntry { count: sat_inc(e.count), last_ms: now, ..e })
    } else {
        v.budget
    };
    RouterView { pending: p, budget: b, ..v }
}

/// What follows a failed delivery.
#[derive(Debug, Clone, Copy, PartialEq, Eq, Structural)]
pub enum FailureOutcome {
    /// Attempts exhausted: the message goes to the dead-letter queue.
    DeadLetter { attempt: u32 },
    /// Scheduled for another attempt at `next_ms`.
    Retry { attempt: u32, next_ms: u64 },
}

/// The bookkeeping of a failed delivery.
#[derive(Debug, Clone, Copy, PartialEq, Eq, Structural)]
pub struct FailurePlan {
    /// Consecutive failures of the target now.
    pub failures: u32,
    /// `true` when this failure opened the target's circuit breaker.
    pub breaker_opened: bool,
    pub outcome: FailureOutcome,
}

impl Router {
    /// Well-formedness: every table has unique keys.
    pub closed spec fn wf(&self) -> bool {
        &&& self.seen.wf()
        &&& self.budget.wf()
        &&& self.delivered_root.wf()
        &&& self.pending.wf()
        &&& self.transient_retries.wf()
        &&& self.retained_since.wf()
        &&& self.retries.wf()
        &&& self.node_failures.wf()
        &&& self.breaker_open.wf()
        &&& self.dispatched_at.wf()
    }

    /// A router with the default configuration.
    pub fn new() -> (r: Router)
        ensures
            r.wf(),
            is_default_config(r@.config),
            !r@.paused,
            r@.seen.is_empty(),
            r@.budget.is_empty(),
            r@.bindings.is_empty(),
            r@.pending.is_empty(),
            r@.transient.is_empty(),
            r@.retained.is_empty(),
            r@.retries.is_empty(),
            r@.failures.is_empty(),
            r@.breaker.is_empty(),
            r@.dispatched.is_empty(),
            r@.progress_seq == 0,
    {
        Router::with_config(RouterConfig::default())
    }

    /// A router with a custom configuration and empty guardrail state.
    pub fn with_config(config: RouterConfig) -> (r: Router)
        ensures
            r.wf(),
            r@.config == config,
            !r@.paused,
            r@.seen.is_empty(),
            r@.budget.is_empty(),
            r@.bindings.is_empty(),
            r@.pending.is_empty(),
            r@.transient.is_empty(),
            r@.retained.is_empty(),
            r@.retries.is_empty(),
            r@.failures.is_empty(),
            r@.breaker.is_empty(),
            r@.dispatched.is_empty(),
            r@.progress_seq == 0,
    {
        let r = Router {
            config,
            seen: Table::new(),
            budget: Table::new(),
            delivered_root: Table::new(),
            pending: Table::new(),
            paused: false,
            transient_retries: Table::new(),
            retained_since: Table::new(),
            retries: Table::new(),
            node_failures: Table::new(),
            breaker_open: Table::new(),
            dispatched_at: Table::new(),
            dispatch_progress_seq: 0,
        };
        assert(r@.breaker =~= Set::<NodeId>::empty());
        r
    }

    /// `true` if the orchestration is paused by the brake.
    pub fn is_paused(&self) -> (r: bool)
        ensures
            r == self@.paused,
    {
        self.paused
    }

    /// Pauses the auto-orchestration: new delegations queue instead of being injected. Returns
    /// `true` on the transition (it was running); pausing again changes nothing. The caller logs
    /// `OrchestrationPaused` only on the transition.
    pub fn pause(&mut self) -> (r: bool)
        ensures
            r == !old(self)@.paused,
            final(self)@ == (RouterView { paused: true, ..old(self)@ }),
            final(self).wf() == old(self).wf(),
    {
        if self.paused {
            return false;
        }
        self.paused = true;
        true
    }

    /// Resumes the auto-orchestration. Returns `true` on the transition (it was paused); the
    /// caller then logs `OrchestrationResumed` and drains the queued delegations.
    pub fn resume(&mut self) -> (r: bool)
        ensures
            r == old(self)@.paused,
            final(self)@ == (RouterView { paused: false, ..old(self)@ }),
            final(self).wf() == old(self).wf(),
    {
        if !self.paused {
            return false;
        }
        self.paused = false;
        true
    }

    /// Rebuilds the brake from the log (the last `OrchestrationPaused`/`OrchestrationResumed`
    /// wins): call it on recovery, before the first pump, so that a new router does not drain
    /// the queue a human had held.
    pub fn restore_orchestration_state(&mut self, records: &[LogRecord])
        ensures
            final(self)@ == (RouterView { paused: paused_after(records@), ..old(self)@ }),
            final(self).wf() == old(self).wf(),
    {
        let mut paused = false;
        let mut i: usize = 0;
        while i < records.len()
            invariant
                i <= records@.len(),
                paused == paused_after(records@.take(i as int)),
            decreases records.len() - i,
        {
            assert(records@.take(i + 1).drop_last() =~= records@.take(i as int));
            match &records[i].event {
                LogEvent::OrchestrationPaused => {
                    paused = true;
                },
                LogEvent::OrchestrationResumed => {
                    paused = false;
                },
                _ => {},
            }
            i = i + 1;
        }
        assert(records@.take(records@.len() as int) =~= records@);
        self.paused = paused;
    }

    /// The nodes taking part in an open await (waiters and awaited targets).
    fn awaiting_nodes(&self) -> (r: Vec<NodeId>)
        requires
            self.wf(),
        ensures
            forall|n: NodeId| r@.contains(n) <==> awaiting(self@.pending, n),
    {
        let tickets = self.pending.values();
        let mut r: Vec<NodeId> = Vec::new();
        let mut i: usize = 0;
        while i < tickets.len()
            invariant
                i <= tickets@.len(),
                forall|n: NodeId| r@.contains(n) <==> exists|j: int| 0 <= j < i && #[trigger] touches(tickets@[j], n),
            decreases tickets.len() - i,
        {
            let ghost before = r@;
            let t = tickets[i];
            r.push(t.waiter);
            r.push(t.target);
            proof {
                assert(r@ =~= before.push(t.waiter).push(t.target));
                assert forall|n: NodeId| r@.contains(n) <==> exists|j: int| 0 <= j < i + 1 && #[trigger] touches(tickets@[j], n) by {
                    if r@.contains(n) {
                        if touches(t, n) {
                            assert(touches(tickets@[i as int], n));
                        } else {
                            let k = choose|k: int| 0 <= k < r@.len() && r@[k] == n;
                            assert(k < before.len());
                            assert(before[k] == n);
                            assert(before.contains(n));
                        }
                    }
                    if exists|j: int| 0 <= j < i + 1 && #[trigger] touches(tickets@[j], n) {
                        let j = choose|j: int| 0 <= j < i + 1 && #[trigger] touches(tickets@[j], n);
                        if j < i {
                            assert(before.contains(n));
                            let k = choose|k: int| 0 <= k < before.len() && before[k] == n;
                            assert(r@[k] == n);
                        } else if n == t.waiter {
                            assert(r@[r@.len() - 2] == n);
                        } else {
                            assert(r@[r@.len() - 1] == n);
                        }
                    }
                }
            }
            i = i + 1;
        }
        proof {
            assert forall|n: NodeId| r@.contains(n) <==> awaiting(self@.pending, n) by {
                if r@.contains(n) {
                    let j = choose|j: int| 0 <= j < tickets@.len() && #[trigger] touches(tickets@[j], n);
                    let tk = tickets@[j];
                    assert(tickets@.contains(tk));
                    let q = choose|q: Seq<char>| #[trigger] self.pending.map().dom().contains(q) && self.pending.map()[q] == tk;
                    assert(self@.pending.dom().contains(q));
                }
                if awaiting(self@.pending, n) {
                    let q = choose|q: Seq<char>| #[trigger] self@.pending.dom().contains(q) && (self@.pending[q].waiter == n
                        || self@.pending[q].target == n);
                    let tk = self@.pending[q];
                    assert(self.pending.map().dom().contains(q) && self.pending.map()[q] == tk);
                    assert(tickets@.contains(tk));
                    let j = choose|j: int| 0 <= j < tickets@.len() && tickets@[j] == tk;
                    assert(touches(tickets@[j], n));
                }
            }
        }
        r
    }

    /// Drops the dedupe entries AND budgets older than the window, the retention clocks beyond
    /// `max(4 · retention_timeout, window)`, and the IDLE chain bindings (older than the window,
    /// except for nodes with a pending await, whose chain is still alive).
    pub fn prune_expired(&mut self, now_ms: u64)
        requires
            old(self).wf(),
        ensures
            final(self).wf(),
            final(self)@ == pruned(old(self)@, now_ms),
    {
        let ghost v = self@;
        let window = self.config.dedupe_window_ms;
        let _ = self.seen.retain(&Within { now: now_ms, span: window });
        let _ = self.budget.retain(&BudgetWithin { now: now_ms, span: window });
        let four = match self.config.retention_timeout_ms.checked_mul(4) {
            Some(x) => x,
            None => u64::MAX,
        };
        let cap = if four >= window {
            four
        } else {
            window
        };
        assert(cap == retention_cap(v.config));
        let _ = self.retained_since.retain(&Within { now: now_ms, span: cap });
        let awaiting_list = self.awaiting_nodes();
        let _ = self.delivered_root.retain(&BindingAlive { now: now_ms, span: window, awaiting: awaiting_list });
        proof {
            let p = pruned(v, now_ms);
            assert(self@.seen =~= p.seen);
            assert(self@.budget =~= p.budget);
            assert(self@.retained =~= p.retained);
            assert(self@.bindings =~= p.bindings);
        }
    }

    /// The first steps of the pipeline. Paused orchestration: a NEW delegation or spawn (not a
    /// reply) is queued, before the dedupe (marking it seen would lose it on resume). Otherwise
    /// prunes, refuses an `id` already seen in the window, and marks the new one as seen.
    pub fn admit_message(&mut self, id: &str, intent: &str, has_reply_to: bool, now_ms: u64) -> (r: Admission)
        requires
            old(self).wf(),
        ensures
            final(self).wf(),
            (r, final(self)@) == admission(old(self)@, id@, intent@, has_reply_to, now_ms),
    {
        if self.paused && !has_reply_to && (is_delegation(intent) || is_spawn_intent(intent)) {
            return Admission::Queued;
        }
        self.prune_expired(now_ms);
        let key = id.to_string();
        if self.seen.contains_key(&key) {
            return Admission::Duplicate;
        }
        self.seen.insert(key, now_ms);
        Admission::Fresh
    }

    /// The effective `(root_cause_id, hops)` of a message of `sender`, from the binding the
    /// supervisor stamped on delivery (never from the message's forgeable fields): inherited root
    /// and `hops + 1`; without a binding the message is its own root at depth 0.
    pub fn derive_root_hops(&self, msg_id: &str, sender: NodeId) -> (r: (String, u8))
        requires
            self.wf(),
        ensures
            (r.0@, r.1) == root_hops(self@, msg_id@, sender),
    {
        match self.delivered_root.get(&sender) {
            Some(b) => (b.0.clone(), b.1.saturating_add(1)),
            None => (msg_id.to_string(), 0),
        }
    }

    /// Seeds the chain binding of a newly admitted node (the child of a spawn) with the spawn's
    /// effective root and hops, so that its own spawns count as cascade. A live binding of a
    /// DIFFERENT root is never overwritten.
    pub fn seed_delivered_root(&mut self, node: NodeId, root: String, hops: u8, now_ms: u64)
        requires
            old(self).wf(),
        ensures
            final(self).wf(),
            final(self)@ == bound(old(self)@, node, root, hops, now_ms),
    {
        let keep_existing = match self.delivered_root.get(&node) {
            Some(b) => b.0 != root,
            None => false,
        };
        if !keep_existing {
            self.delivered_root.insert(node, (root, hops, now_ms));
        }
    }

    /// The retention verdict for a destination that resolves to exactly one node (`target`),
    /// whose roster status is `status`: past `retention_timeout_ms` of retention → dead letter;
    /// open breaker on a node still `Blocked` → hold (an external reset closes the breaker and
    /// forgets the failures); a `Busy` target → hold; else pass.
    pub fn retention_verdict(
        &mut self,
        id: &str,
        target: Option<NodeId>,
        status: Option<NodeStatus>,
        now_ms: u64,
    ) -> (r: Verdict)
        requires
            old(self).wf(),
        ensures
            final(self).wf(),
            (r, final(self)@) == retention(old(self)@, id@, target, status, now_ms),
    {
        let ghost v = self@;
        let t = match target {
            None => return Verdict::Pass,
            Some(t) => t,
        };
        let key = id.to_string();
        match self.retained_since.get(&key) {
            Some(first) => {
                if now_ms.saturating_sub(*first) >= self.config.retention_timeout_ms {
                    return Verdict::DeadLetter { target: t };
                }
            },
            None => {},
        }
        if self.breaker_open.contains_key(&t) {
            match status {
                Some(NodeStatus::Blocked) => {
                    return Verdict::Hold { target: t, reason: HoldReason::CircuitOpen };
                },
                _ => {},
            }
            self.breaker_open.remove(&t);
            self.node_failures.remove(&t);
            proof {
                assert(self@.breaker =~= v.breaker.remove(t));
            }
        }
        match status {
            Some(NodeStatus::Busy) => Verdict::Hold { target: t, reason: HoldReason::TargetBusy },
            _ => Verdict::Pass,
        }
    }

    /// A held message: starts its retention clock the first time (returns `true` then: the
    /// caller logs `MessageRetained` once) and unmarks it as seen so the next tick re-evaluates it.
    pub fn hold_message(&mut self, id: &str, now_ms: u64) -> (first: bool)
        requires
            old(self).wf(),
        ensures
            final(self).wf(),
            first == !old(self)@.retained.dom().contains(id@),
            final(self)@ == (RouterView {
                retained: if first {
                    old(self)@.retained.insert(id@, now_ms)
                } else {
                    old(self)@.retained
                },
                seen: old(self)@.seen.remove(id@),
                ..old(self)@
            }),
    {
        let key = id.to_string();
        let first = !self.retained_since.contains_key(&key);
        if first {
            self.retained_since.insert(key.clone(), now_ms);
        }
        self.seen.remove(&key);
        first
    }

    /// Closes the await answered by this reply, if and only if the reply is AUTHENTIC: its
    /// `reply_to` names an open ticket, the (resolved) `sender` is the awaited target, and it goes
    /// back to the waiter (`to_node`). Only then the ticket is consumed and returned (the caller
    /// releases the wait-for edge and logs `AwaitClosed`); an illegitimate reply leaves it intact.
    pub fn close_await_on_reply(
        &mut self,
        reply_to: Option<&str>,
        sender: NodeId,
        to_node: Option<NodeId>,
    ) -> (r: Option<AwaitTicket>)
        requires
            old(self).wf(),
        ensures
            final(self).wf(),
            match reply_to {
                None => r is None && final(self)@ == old(self)@,
                Some(q) => {
                    let v = old(self)@;
                    if v.pending.dom().contains(q@) && v.pending[q@].target == sender && to_node
                        == Some(v.pending[q@].waiter) {
                        r == Some(v.pending[q@]) && final(self)@ == (RouterView {
                            pending: v.pending.remove(q@),
                            ..v
                        })
                    } else {
                        r is None && final(self)@ == v
                    }
                },
            },
    {
        let q = match reply_to {
            None => return None,
            Some(q) => q,
        };
        let key = q.to_string();
        let ticket = match self.pending.get(&key) {
            None => return None,
            Some(t) => *t,
        };
        if sender != ticket.target {
            return None;
        }
        match to_node {
            Some(n) => {
                if n != ticket.waiter {
                    return None;
                }
            },
            None => return None,
        }
        self.pending.remove(&key);
        Some(ticket)
    }

    /// Closes the awaits older than `await_timeout_ms` (strictly): returns the expired tickets,
    /// by question id, for the caller to release their edges and log `AwaitClosed{Timeout}`.
    pub fn sweep_await_timeouts(&mut self, now_ms: u64) -> (r: Vec<(String, AwaitTicket)>)
        requires
            old(self).wf(),
        ensures
            final(self).wf(),
            final(self)@ == (RouterView {
                pending: old(self)@.pending.restrict(
                    Set::new(|q: Seq<char>| !past(now_ms, old(self)@.pending[q].opened_ms, old(self)@.config.await_timeout_ms)),
                ),
                ..old(self)@
            }),
            keys_unique(kv_view(r@)),
            as_map(kv_view(r@)) == old(self)@.pending.restrict(
                Set::new(|q: Seq<char>| past(now_ms, old(self)@.pending[q].opened_ms, old(self)@.config.await_timeout_ms)),
            ),
    {
        let ghost v = self@;
        let timeout = self.config.await_timeout_ms;
        let expired = self.pending.retain(&NotExpired { now: now_ms, span: timeout });
        proof {
            assert(self@.pending =~= v.pending.restrict(
                Set::new(|q: Seq<char>| !past(now_ms, v.pending[q].opened_ms, timeout)),
            ));
            assert(as_map(kv_view(expired@)) =~= v.pending.restrict(
                Set::new(|q: Seq<char>| past(now_ms, v.pending[q].opened_ms, timeout)),
            ));
        }
        expired
    }

    /// The delegation guardrails, in pipeline order, for a message of `sender` with effective
    /// `(root, hops)`, resolving to `targets` live nodes: depth; target; autonomy (`manual`
    /// refuses delegation); fan-out (only a CASCADED broadcast, `hops >= 1`, beyond `fanout_gate`);
    /// the daily token ceiling from `ledger` (already paused, or reached now: the transition);
    /// the delegation budget (cascade only).
    pub fn check_gates(
        &self,
        sender: NodeId,
        root: &str,
        hops: u8,
        intent: &str,
        is_broadcast: bool,
        targets: usize,
        ledger: &CostLedger,
    ) -> (r: Gate)
        requires
            self.wf(),
        ensures
            r == gate_spec(self@, sender, root@, hops, intent@, is_broadcast, targets, ledger.tokens, ledger.paused),
    {
        let deleg = is_delegation(intent);
        if hops > self.config.max_depth {
            return Gate::HopLimit;
        }
        if targets == 0 {
            return Gate::NoTarget;
        }
        if self.config.autonomy.blocks_delegation() && deleg {
            return Gate::BlockedByAutonomy;
        }
        if hops >= 1 && is_broadcast && targets > self.config.fanout_gate {
            return Gate::FanoutGated { count: targets };
        }
        if deleg && self.config.token_budget_day > 0 {
            if ledger.paused {
                return Gate::CostCeiling { hit: false };
            }
            if ledger.tokens >= self.config.token_budget_day {
                return Gate::CostCeiling { hit: true };
            }
        }
        if deleg && hops >= 1 {
            let count = match self.budget.get(&(root.to_string(), sender)) {
                Some(e) => e.count,
                None => 0,
            };
            if count >= self.config.delegation_budget {
                return Gate::BudgetExceeded;
            }
        }
        Gate::Pass
    }

    /// Records a persisted route: opens the await ticket (when the message awaits one target)
    /// and counts a delegation against the budget of `(root, sender)`, stamped `now_ms`.
    pub fn record_route(
        &mut self,
        id: &str,
        sender: NodeId,
        root: &str,
        await_target: Option<NodeId>,
        is_deleg: bool,
        now_ms: u64,
    )
        requires
            old(self).wf(),
        ensures
            final(self).wf(),
            final(self)@ == routed(old(self)@, id@, sender, root@, await_target, is_deleg, now_ms),
    {
        match await_target {
            Some(t) => {
                self.pending.insert(
                    id.to_string(),
                    AwaitTicket { waiter: sender, target: t, opened_ms: now_ms },
                );
            },
            None => {},
        }
        if is_deleg {
            let key = (root.to_string(), sender);
            let e = match self.budget.get(&key) {
                Some(e) => *e,
                None => BudgetEntry { count: 0, spawn_count: 0, last_ms: now_ms },
            };
            self.budget.insert(
                key,
                BudgetEntry { count: e.count.saturating_add(1), spawn_count: e.spawn_count, last_ms: now_ms },
            );
        }
    }

    /// A delivery by the route: the retention clock and any pending retry of the message end,
    /// and the target is bound to the delivered chain (never over a live binding of another
    /// root).
    pub fn record_delivery(&mut self, id: &str, target: NodeId, root: String, hops: u8, now_ms: u64)
        requires
            old(self).wf(),
        ensures
            final(self).wf(),
            final(self)@ == bound(
                RouterView {
                    retained: old(self)@.retained.remove(id@),
                    retries: old(self)@.retries.remove(id@),
                    ..old(self)@
                },
                target,
                root,
                hops,
                now_ms,
            ),
    {
        let key = id.to_string();
        self.retained_since.remove(&key);
        self.retries.remove(&key);
        self.seed_delivered_root(target, root, hops, now_ms);
    }

    /// A delivery by the retry engine: the target's consecutive failures reset to 0, the retry
    /// ends, and the target is bound to the chain (never over a live binding of another root).
    pub fn record_retry_delivery(&mut self, id: &str, target: NodeId, root: String, hops: u8, now_ms: u64)
        requires
            old(self).wf(),
        ensures
            final(self).wf(),
            final(self)@ == bound(
                RouterView {
                    failures: old(self)@.failures.insert(target, 0),
                    retries: old(self)@.retries.remove(id@),
                    ..old(self)@
                },
                target,
                root,
                hops,
                now_ms,
            ),
    {
        self.node_failures.insert(target, 0);
        self.retries.remove(&id.to_string());
        self.seed_delivered_root(target, root, hops, now_ms);
    }

    /// The delivery found the target's prompt not ready: NOT a failure. Starts the retention
    /// clock the first time (returns `true`: the caller logs `MessageRetained{prompt_not_ready}`
    /// once) and queues the message in the redelivery engine with `attempts == 0` (a retention,
    /// never a strike), due after `NOT_READY_BACKOFF_MS`.
    pub fn retain_not_ready(
        &mut self,
        id: &str,
        target: NodeId,
        from: NodeId,
        block: String,
        root: String,
        hops: u8,
        now_ms: u64,
    ) -> (first: bool)
        requires
            old(self).wf(),
        ensures
            final(self).wf(),
            first == !old(self)@.retained.dom().contains(id@),
            final(self)@ == (RouterView {
                retained: if first {
                    old(self)@.retained.insert(id@, now_ms)
                } else {
                    old(self)@.retained
                },
                retries: old(self)@.retries.insert(
                    id@,
                    RetryState {
                        from,
                        target,
                        block,
                        root,
                        hops,
                        attempts: 0,
                        next_ms: sat_add(now_ms, NOT_READY_BACKOFF_MS),
                    },
                ),
                seen: old(self)@.seen.remove(id@),
                ..old(self)@
            }),
    {
        let key = id.to_string();
        let first = !self.retained_since.contains_key(&key);
        if first {
            self.retained_since.insert(key.clone(), now_ms);
        }
        self.retries.insert(
            key.clone(),
            RetryState {
                from,
                target,
                block,
                root,
                hops,
                attempts: 0,
                next_ms: now_ms.saturating_add(NOT_READY_BACKOFF_MS),
            },
        );
        self.seen.remove(&key);
        first
    }

    /// A delivery attempt FAILED: counts a consecutive failure of the target (opening its circuit
    /// breaker when the count reaches `breaker_threshold`), and either schedules the next attempt
    /// with backoff (`now + backoff_with_jitter`) or, with the attempts exhausted, sends the
    /// message to the dead-letter queue.
    pub fn on_delivery_failure(
        &mut self,
        id: &str,
        target: NodeId,
        sender: NodeId,
        block: String,
        root: String,
        hops: u8,
        now_ms: u64,
    ) -> (r: FailurePlan)
        requires
            old(self).wf(),
            ({
                let v = old(self)@;
                let attempt = sat_inc(
                    if v.retries.dom().contains(id@) {
                        v.retries[id@].attempts
                    } else {
                        0
                    },
                );
                attempt < v.config.delivery_max_attempts ==> now_ms + backoff_spec(
                    v.config.delivery_backoff_base_ms,
                    attempt,
                    id@,
                ) <= u64::MAX
            }),
        ensures
            final(self).wf(),
            ({
                let v = old(self)@;
                let fails = sat_inc(
                    if v.failures.dom().contains(target) {
                        v.failures[target]
                    } else {
                        0
                    },
                );
                let opened = fails >= v.config.breaker_threshold && !v.breaker.contains(target);
                let attempt = sat_inc(
                    if v.retries.dom().contains(id@) {
                        v.retries[id@].attempts
                    } else {
                        0
                    },
                );
                let w = RouterView {
                    failures: v.failures.insert(target, fails),
                    breaker: if opened {
                        v.breaker.insert(target)
                    } else {
                        v.breaker
                    },
                    ..v
                };
                &&& r.failures == fails
                &&& r.breaker_opened == opened
                &&& if attempt >= v.config.delivery_max_attempts {
                    &&& r.outcome == FailureOutcome::DeadLetter { attempt }
                    &&& final(self)@ == w
                } else {
                    let next = (now_ms + backoff_spec(v.config.delivery_backoff_base_ms, attempt, id@)) as u64;
                    &&& r.outcome == FailureOutcome::Retry { attempt, next_ms: next }
                    &&& final(self)@ == (RouterView {
                        retries: w.retries.insert(
                            id@,
                            RetryState { from: sender, target, block, root, hops, attempts: attempt, next_ms: next },
                        ),
                        seen: w.seen.remove(id@),
                        ..w
                    })
                }
            }),
    {
        let ghost v = self@;
        let prior = match self.node_failures.get(&target) {
            Some(n) => *n,
            None => 0,
        };
        let fails = prior.saturating_add(1);
        self.node_failures.insert(target, fails);
        let opened = fails >= self.config.breaker_threshold && !self.breaker_open.contains_key(&target);
        if opened {
            self.breaker_open.insert(target, true);
        }
        proof {
            assert(self@.breaker =~= if opened {
                v.breaker.insert(target)
            } else {
                v.breaker
            });
        }
        let key = id.to_string();
        let attempts = match self.retries.get(&key) {
            Some(st) => st.attempts,
            None => 0,
        };
        let attempt = attempts.saturating_add(1);
        if attempt >= self.config.delivery_max_attempts {
            return FailurePlan {
                failures: fails,
                breaker_opened: opened,
                outcome: FailureOutcome::DeadLetter { attempt },
            };
        }
        let base = self.config.delivery_backoff_base_ms;
        let delay = backoff_with_jitter(base, attempt, id);
        let next_ms = now_ms + delay;
        self.retries.insert(
            key.clone(),
            RetryState { from: sender, target, block, root, hops, attempts: attempt, next_ms },
        );
        self.seen.remove(&key);
        FailurePlan {
            failures: fails,
            breaker_opened: opened,
            outcome: FailureOutcome::Retry { attempt, next_ms },
        }
    }

    /// After the message went to the dead-letter queue: forgets its retention clock, retry and
    /// transient counter.
    pub fn forget_dead_letter(&mut self, id: &str)
        requires
            old(self).wf(),
        ensures
            final(self).wf(),
            final(self)@ == (RouterView {
                retained: old(self)@.retained.remove(id@),
                retries: old(self)@.retries.remove(id@),
                transient: old(self)@.transient.remove(id@),
                ..old(self)@
            }),
    {
        let key = id.to_string();
        self.retained_since.remove(&key);
        self.retries.remove(&key);
        self.transient_retries.remove(&key);
    }

    /// A definitive outcome (delivered, duplicate, refused, dead-lettered): clears the message's
    /// transient counter and retention clock.
    pub fn finish_message(&mut self, id: &str)
        requires
            old(self).wf(),
        ensures
            final(self).wf(),
            final(self)@ == (RouterView {
                retained: old(self)@.retained.remove(id@),
                transient: old(self)@.transient.remove(id@),
                ..old(self)@
            }),
    {
        let key = id.to_string();
        self.transient_retries.remove(&key);
        self.retained_since.remove(&key);
    }

    /// A transient block (unknown sender / no target, often a registration race): counts one
    /// more tick; while under `MAX_TRANSIENT_RETRIES` the message is retained (returns `true` and
    /// is unmarked as seen, so the next tick re-routes it); at the cap it is given up.
    pub fn note_transient(&mut self, id: &str) -> (retain: bool)
        requires
            old(self).wf(),
        ensures
            final(self).wf(),
            ({
                let n = sat_inc(
                    if old(self)@.transient.dom().contains(id@) {
                        old(self)@.transient[id@]
                    } else {
                        0
                    },
                );
                &&& retain == (n < MAX_TRANSIENT_RETRIES)
                &&& final(self)@ == (RouterView {
                    transient: old(self)@.transient.insert(id@, n),
                    seen: if retain {
                        old(self)@.seen.remove(id@)
                    } else {
                        old(self)@.seen
                    },
                    ..old(self)@
                })
            }),
    {
        let key = id.to_string();
        let prior = match self.transient_retries.get(&key) {
            Some(n) => *n,
            None => 0,
        };
        let n = prior.saturating_add(1);
        self.transient_retries.insert(key.clone(), n);
        let retain = n < MAX_TRANSIENT_RETRIES;
        if retain {
            self.seen.remove(&key);
        }
        retain
    }

    /// The retry in course for `id`, if any: its target and attempts (`0` = retained because the
    /// prompt was not ready).
    pub fn pending_retry(&self, id: &str) -> (r: Option<(NodeId, u32)>)
        requires
            self.wf(),
        ensures
            match r {
                Some((t, a)) => self@.retries.dom().contains(id@) && self@.retries[id@].target == t
                    && self@.retries[id@].attempts == a,
                None => !self@.retries.dom().contains(id@),
            },
    {
        match self.retries.get(&id.to_string()) {
            Some(st) => Some((st.target, st.attempts)),
            None => None,
        }
    }

    /// The human gesture that releases a node paused by its circuit breaker: closes the breaker
    /// and forgets the failures. Returns `false` (and changes nothing) when there was nothing to
    /// release (breaker closed and node not `Blocked`); the caller then moves a `Blocked` node
    /// back to `Idle`.
    pub fn reset_breaker(&mut self, node: NodeId, blocked: bool) -> (r: bool)
        requires
            old(self).wf(),
        ensures
            final(self).wf(),
            r == (old(self)@.breaker.contains(node) || blocked),
            final(self)@ == (RouterView {
                breaker: old(self)@.breaker.remove(node),
                failures: if r {
                    old(self)@.failures.remove(node)
                } else {
                    old(self)@.failures
                },
                ..old(self)@
            }),
    {
        let ghost v = self@;
        let was_open = self.breaker_open.contains_key(&node);
        self.breaker_open.remove(&node);
        proof {
            assert(self@.breaker =~= v.breaker.remove(node));
        }
        if !was_open && !blocked {
            return false;
        }
        self.node_failures.remove(&node);
        true
    }

    /// Retiring a belief by a human gesture: refused (`None`) for an id that is empty after
    /// trimming (a malformed gesture logs nothing); otherwise the `BeliefRetired` event to log,
    /// with the id as given and the reason `retired_by_human` stamped here.
    pub fn retire_belief(&self, belief_id: &str) -> (r: Option<BeliefRetired>)
        ensures
            trim(belief_id@).len() == 0 ==> r is None,
            trim(belief_id@).len() > 0 ==> (r matches Some(b) && b.belief_id@ == belief_id@
                && b.reason@ == seq!['r', 'e', 't', 'i', 'r', 'e', 'd', '_', 'b', 'y', '_', 'h', 'u', 'm', 'a', 'n']),
    {
        let t = trim_chars(&chars_of(belief_id));
        if t.len() == 0 {
            return None;
        }
        Some(BeliefRetired { belief_id: belief_id.to_string(), reason: string_of(&vec!['r', 'e', 't', 'i', 'r', 'e', 'd', '_', 'b', 'y', '_', 'h', 'u', 'm', 'a', 'n']) })
    }
}

/// A belief retired by a human: the id, and the reason stamped server-side (never the caller's).
#[derive(Debug, Clone, PartialEq, Eq)]
pub struct BeliefRetired {
    pub belief_id: String,
    pub reason: String,
}

// ---------------------------------------------------------------------------------------------
// The guard pipeline of one message.

/// The facts the supervisor resolved for a message, before the guardrails decide.
#[derive(Debug, Clone, Copy)]
pub struct RouteFacts {
    /// The authenticated sender.
    pub sender: NodeId,
    /// The destination is a broadcast.
    pub is_broadcast: bool,
    /// The single node the destination resolves to (for retention), if exactly one.
    pub single_target: Option<NodeId>,
    /// That node's status in the roster.
    pub single_status: Option<NodeStatus>,
    /// The node the `to` names (for the authentication of a reply).
    pub to_node: Option<NodeId>,
    /// The first live target of the preview (for the tight-loop guard).
    pub first_target: Option<NodeId>,
    /// How many live targets the destination resolves to.
    pub targets: usize,
    /// The hop `sender → first_target` would close a tight loop under the effective root.
    pub tight_loop: bool,
    /// Opening the await would close a cycle in the wait-for graph.
    pub await_deadlock: bool,
}

/// What the guardrails decide for a message that passed admission.
#[derive(Debug, Clone, PartialEq, Eq)]
pub enum GuardDecision {
    /// Held (busy target or open breaker); `first` on the first retention (log it once).
    Held { target: NodeId, reason: HoldReason, first: bool },
    /// The retention exceeded its ceiling: dead-letter it.
    DeadLetter { target: NodeId },
    /// Refused by a guardrail.
    Refused { gate: Gate },
    /// The hop would close a tight loop.
    LoopDetected,
    /// The await would deadlock.
    Deadlock,
    /// Route it, with the effective chain; `closed_await` when it authentically answered one.
    Route { root: String, hops: u8, closed_await: Option<AwaitTicket> },
}

/// The model of a [`GuardDecision`] (the root by its view).
pub enum GuardModel {
    Held { target: NodeId, reason: HoldReason, first: bool },
    DeadLetter { target: NodeId },
    Refused { gate: Gate },
    LoopDetected,
    Deadlock,
    Route { root: Seq<char>, hops: u8, closed_await: Option<AwaitTicket> },
}

/// The model of a decision.
pub open spec fn guard_model(d: GuardDecision) -> GuardModel {
    match d {
        GuardDecision::Held { target, reason, first } => GuardModel::Held { target, reason, first },
        GuardDecision::DeadLetter { target } => GuardModel::DeadLetter { target },
        GuardDecision::Refused { gate } => GuardModel::Refused { gate },
        GuardDecision::LoopDetected => GuardModel::LoopDetected,
        GuardDecision::Deadlock => GuardModel::Deadlock,
        GuardDecision::Route { root, hops, closed_await } => GuardModel::Route { root: root@, hops, closed_await },
    }
}

/// The guard pipeline, in order: retention (hold or dead-letter); closing of an awaited reply;
/// effective root/hops; depth, target, autonomy, fan-out, cost and budget gates; the tight-loop
/// guard (skipped by a legitimate reply, a broadcast, a non-delegation, or a target whose
/// delivery is pending without progress); the await deadlock.
pub open spec fn guard_pipeline(
    v: RouterView,
    id: Seq<char>,
    intent: Seq<char>,
    reply_to: Option<Seq<char>>,
    await_reply: bool,
    f: RouteFacts,
    ledger_tokens: u64,
    ledger_paused: bool,
    now: u64,
) -> (GuardModel, RouterView) {
    let (verdict, v1) = retention(v, id, f.single_target, f.single_status, now);
    match verdict {
        Verdict::Hold { target, reason } => {
            let first = !v1.retained.dom().contains(id);
            (
                GuardModel::Held { target, reason, first },
                RouterView {
                    retained: if first {
                        v1.retained.insert(id, now)
                    } else {
                        v1.retained
                    },
                    seen: v1.seen.remove(id),
                    ..v1
                },
            )
        },
        Verdict::DeadLetter { target } => (GuardModel::DeadLetter { target }, v1),
        Verdict::Pass => {
            let (ticket, v2) = match reply_to {
                Some(q) => if v1.pending.dom().contains(q) && v1.pending[q].target == f.sender && f.to_node
                    == Some(v1.pending[q].waiter) {
                    (Some(v1.pending[q]), RouterView { pending: v1.pending.remove(q), ..v1 })
                } else {
                    (None, v1)
                },
                None => (None::<AwaitTicket>, v1),
            };
            let (root, hops) = root_hops(v2, id, f.sender);
            let gate = gate_spec(v2, f.sender, root, hops, intent, f.is_broadcast, f.targets, ledger_tokens, ledger_paused);
            if gate != Gate::Pass {
                (GuardModel::Refused { gate }, v2)
            } else if delegation_intent(intent) && ticket is None && !f.is_broadcast && f.first_target is Some
                && f.tight_loop && !v2.dispatched.dom().contains(f.first_target->0) {
                (GuardModel::LoopDetected, v2)
            } else if await_reply && f.await_deadlock {
                (GuardModel::Deadlock, v2)
            } else {
                (GuardModel::Route { root, hops, closed_await: ticket }, v2)
            }
        },
    }
}

impl Router {
    /// The guardrails of one admitted message, in pipeline order, over the facts the supervisor
    /// resolved (see [`guard_pipeline`]). State changes: the retention clock of a held message
    /// (and its dedupe mark, so the next tick re-evaluates it), the breaker closed by an external
    /// reset, and the consumed ticket of an authentic reply. The loop guard's exemption reads the
    /// dispatch watch as it stands: the caller first brings it up to date with
    /// [`Router::sync_dispatch_progress`] over the log's new records, as the pipeline does.
    pub fn guard_message(
        &mut self,
        id: &str,
        intent: &str,
        reply_to: Option<&str>,
        await_reply: bool,
        facts: &RouteFacts,
        ledger: &CostLedger,
        now_ms: u64,
    ) -> (r: GuardDecision)
        requires
            old(self).wf(),
        ensures
            final(self).wf(),
            (guard_model(r), final(self)@) == guard_pipeline(
                old(self)@,
                id@,
                intent@,
                match reply_to {
                    Some(q) => Some(q@),
                    None => None,
                },
                await_reply,
                *facts,
                ledger.tokens,
                ledger.paused,
                now_ms,
            ),
    {
        let verdict = self.retention_verdict(id, facts.single_target, facts.single_status, now_ms);
        match verdict {
            Verdict::Hold { target, reason } => {
                let first = self.hold_message(id, now_ms);
                return GuardDecision::Held { target, reason, first };
            },
            Verdict::DeadLetter { target } => {
                return GuardDecision::DeadLetter { target };
            },
            Verdict::Pass => {},
        }
        let ticket = self.close_await_on_reply(reply_to, facts.sender, facts.to_node);
        let (root, hops) = self.derive_root_hops(id, facts.sender);
        let gate = self.check_gates(
            facts.sender,
            root.as_str(),
            hops,
            intent,
            facts.is_broadcast,
            facts.targets,
            ledger,
        );
        match gate {
            Gate::Pass => {},
            _ => {
                return GuardDecision::Refused { gate };
            },
        }
        if is_delegation(intent) && ticket.is_none() && !facts.is_broadcast && facts.tight_loop {
            match facts.first_target {
                Some(t) => {
                    if !self.dispatch_pending(t) {
                        return GuardDecision::LoopDetected;
                    }
                },
                None => {},
            }
        }
        if await_reply && facts.await_deadlock {
            return GuardDecision::Deadlock;
        }
        GuardDecision::Route { root, hops, closed_await: ticket }
    }
}

// ---------------------------------------------------------------------------------------------
// The delivery ledger and the pump's decision per message.

/// The consolidated delivery state of one message id, derived from the log.
#[derive(Debug, Clone, PartialEq, Eq)]
pub struct LedgerEntry {
    pub to_node: Option<NodeId>,
    pub root: String,
    pub hops: u8,
    pub delivered: bool,
    pub dead: bool,
    /// The last failure: `(attempt, next_retry_ms)`.
    pub failed: Option<(u32, u64)>,
    /// When the message was first retained because the prompt was not ready.
    pub retained_at: Option<u64>,
}

/// The ledger entry of `id` over `recs`: opened by its (first) `MessageRouted`, then marked by
/// its `MessageRetained{prompt_not_ready}` (first one wins), `MessageDelivered`,
/// `MessageDeliveryFailed` (last one wins) and `MessageDeadLettered`. An empty id has none.
pub open spec fn ledger_of(recs: Seq<LogRecord>, id: Seq<char>) -> Option<LedgerEntry>
    decreases recs.len(),
{
    if recs.len() == 0 || id.len() == 0 {
        None
    } else {
        let acc = ledger_of(recs.drop_last(), id);
        let rec = recs.last();
        match rec.event {
            LogEvent::MessageRouted { id: i, root_cause_id, to_node, hops, .. } => {
                if i@ == id && acc is None {
                    Some(
                        LedgerEntry {
                            to_node,
                            root: root_cause_id,
                            hops,
                            delivered: false,
                            dead: false,
                            failed: None,
                            retained_at: None,
                        },
                    )
                } else {
                    acc
                }
            },
            LogEvent::MessageRetained { id: i, not_ready } => {
                if i@ == id && not_ready && acc is Some && acc->0.retained_at is None {
                    Some(LedgerEntry { retained_at: Some(rec.ts), ..acc->0 })
                } else {
                    acc
                }
            },
            LogEvent::MessageDelivered { id: i } => {
                if i@ == id && acc is Some {
                    Some(LedgerEntry { delivered: true, ..acc->0 })
                } else {
                    acc
                }
            },
            LogEvent::MessageDeliveryFailed { id: i, attempt, next_retry_ms } => {
                if i@ == id && acc is Some {
                    Some(LedgerEntry { failed: Some((attempt, next_retry_ms)), ..acc->0 })
                } else {
                    acc
                }
            },
            LogEvent::MessageDeadLettered { id: i } => {
                if i@ == id && acc is Some {
                    Some(LedgerEntry { dead: true, ..acc->0 })
                } else {
                    acc
                }
            },
            _ => acc,
        }
    }
}

/// The delivery ledger entry of `id`, derived from the log: what distinguishes, after a
/// restart, "routed and delivered" from "routed with a failed delivery pending" (resume the
/// retry at the durable attempt and schedule) or "routed and retained" (resume the retention
/// with its original clock).
pub fn delivery_ledger_entry(records: &[LogRecord], id: &str) -> (r: Option<LedgerEntry>)
    ensures
        r == ledger_of(records@, id@),
{
    let want = chars_of(id);
    if want.len() == 0 {
        return None;
    }
    let mut acc: Option<LedgerEntry> = None;
    let mut i: usize = 0;
    while i < records.len()
        invariant
            i <= records@.len(),
            want@ == id@,
            want@.len() > 0,
            acc == ledger_of(records@.take(i as int), id@),
        decreases records.len() - i,
    {
        assert(records@.take(i + 1).drop_last() =~= records@.take(i as int));
        let rec = &records[i];
        match &rec.event {
            LogEvent::MessageRouted { id: rid, root_cause_id, to_node, hops, .. } => {
                if acc.is_none() && chars_equal(&chars_of(rid.as_str()), &want) {
                    acc = Some(
                        LedgerEntry {
                            to_node: *to_node,
                            root: root_cause_id.clone(),
                            hops: *hops,
                            delivered: false,
                            dead: false,
                            failed: None,
                            retained_at: None,
                        },
                    );
                }
            },
            LogEvent::MessageRetained { id: rid, not_ready } => {
                if *not_ready && chars_equal(&chars_of(rid.as_str()), &want) {
                    match acc {
                        Some(e) => {
                            if e.retained_at.is_none() {
                                acc = Some(LedgerEntry { retained_at: Some(rec.ts), ..e });
                            } else {
                                acc = Some(e);
                            }
                        },
                        None => {},
                    }
                }
            },
            LogEvent::MessageDelivered { id: rid } => {
                if chars_equal(&chars_of(rid.as_str()), &want) {
                    match acc {
                        Some(e) => {
                            acc = Some(LedgerEntry { delivered: true, ..e });
                        },
                        None => {},
                    }
                }
            },
            LogEvent::MessageDeliveryFailed { id: rid, attempt, next_retry_ms } => {
                if chars_equal(&chars_of(rid.as_str()), &want) {
                    match acc {
                        Some(e) => {
                            acc = Some(LedgerEntry { failed: Some((*attempt, *next_retry_ms)), ..e });
                        },
                        None => {},
                    }
                }
            },
            LogEvent::MessageDeadLettered { id: rid } => {
                if chars_equal(&chars_of(rid.as_str()), &want) {
                    match acc {
                        Some(e) => {
                            acc = Some(LedgerEntry { dead: true, ..e });
                        },
                        None => {},
                    }
                }
            },
            _ => {},
        }
        i = i + 1;
    }
    assert(records@.take(records@.len() as int) =~= records@);
    acc
}

/// What the pump does with a drained message before routing it.
#[derive(Debug, Clone, PartialEq, Eq)]
pub enum PumpStep {
    /// A retry or retention is in course in this process: hold it (no ack).
    Hold { outcome: RouteOutcome },
    /// Already delivered or dead-lettered (or not rebuildable): acknowledge as a duplicate.
    Acknowledge,
    /// Routed with a failed delivery pending: resume the retry from the log.
    ResumeRetry { target: NodeId, attempt: u32, next_ms: u64, root: String, hops: u8 },
    /// Routed and retained because the prompt was not ready: resume the retention.
    ResumeRetention { target: NodeId, retained_at: u64, root: String, hops: u8 },
    /// Not routed yet: run the pipeline.
    Route,
}

/// The pump's step for a message, from the retry in course (target, attempts) and the ledger.
pub open spec fn pump_step_spec(retry: Option<(NodeId, u32)>, entry: Option<LedgerEntry>) -> PumpStep {
    match retry {
        Some((t, a)) => PumpStep::Hold {
            outcome: if a == 0 {
                RouteOutcome::Retained { to: t }
            } else {
                RouteOutcome::RetryBackoff { to: t, attempt: a }
            },
        },
        None => match entry {
            None => PumpStep::Route,
            Some(l) => {
                if l.delivered || l.dead {
                    PumpStep::Acknowledge
                } else if l.failed is Some {
                    let f = l.failed->0;
                    match l.to_node {
                        Some(t) => PumpStep::ResumeRetry {
                            target: t,
                            attempt: f.0,
                            next_ms: f.1,
                            root: l.root,
                            hops: l.hops,
                        },
                        None => PumpStep::Acknowledge,
                    }
                } else if l.retained_at is Some {
                    match l.to_node {
                        Some(t) => PumpStep::ResumeRetention {
                            target: t,
                            retained_at: l.retained_at->0,
                            root: l.root,
                            hops: l.hops,
                        },
                        None => PumpStep::Acknowledge,
                    }
                } else {
                    PumpStep::Acknowledge
                }
            },
        },
    }
}

/// `true` for the outcomes of a transient block (a registration race): retried for a while.
pub open spec fn transient_outcome(o: RouteOutcome) -> bool {
    o is UnknownSender || o is NoTarget
}

/// `true` for the outcomes that keep the message in flight (no ack).
pub open spec fn hold_outcome(o: RouteOutcome) -> bool {
    o is PersistFailed || o is Queued || o is Retained || o is RetryBackoff
}

/// `true` if the outcome is a transient block (`UnknownSender` / `NoTarget`).
pub fn is_transient_outcome(o: &RouteOutcome) -> (r: bool)
    ensures
        r == transient_outcome(*o),
{
    match o {
        RouteOutcome::UnknownSender(_) => true,
        RouteOutcome::NoTarget => true,
        _ => false,
    }
}

/// `true` if the outcome keeps the message in flight (persist failure, queued, retained, retry).
pub fn is_hold_outcome(o: &RouteOutcome) -> (r: bool)
    ensures
        r == hold_outcome(*o),
{
    match o {
        RouteOutcome::PersistFailed(_) => true,
        RouteOutcome::Queued => true,
        RouteOutcome::Retained { .. } => true,
        RouteOutcome::RetryBackoff { .. } => true,
        _ => false,
    }
}

/// What the pump does with a message once the pipeline answered.
#[derive(Debug, Clone, Copy, PartialEq, Eq, Structural)]
pub enum Settlement {
    /// A transient block under the cap: keep it in flight and re-route it next tick.
    RetainTransient,
    /// A transient block at the cap: move it to the dead-letter queue (then acknowledge).
    DeadLetterTransient,
    /// Keep it in flight (persist failure, queued, retained, retry in course).
    Hold,
    /// A definitive outcome: acknowledged; its counters were cleared.
    Acknowledge,
}

impl Router {
    /// Settles a routed message: a transient block (`UnknownSender`/`NoTarget`) counts a retry
    /// and is retained under `MAX_TRANSIENT_RETRIES`, else dead-lettered; a holding outcome stays
    /// in flight; any other outcome is definitive: acknowledged, with its transient counter and
    /// retention clock cleared.
    pub fn settle(&mut self, id: &str, outcome: &RouteOutcome) -> (r: Settlement)
        requires
            old(self).wf(),
        ensures
            final(self).wf(),
            ({
                let v = old(self)@;
                let n = sat_inc(
                    if v.transient.dom().contains(id@) {
                        v.transient[id@]
                    } else {
                        0
                    },
                );
                if transient_outcome(*outcome) {
                    if n < MAX_TRANSIENT_RETRIES {
                        r == Settlement::RetainTransient && final(self)@ == (RouterView {
                            transient: v.transient.insert(id@, n),
                            seen: v.seen.remove(id@),
                            ..v
                        })
                    } else {
                        r == Settlement::DeadLetterTransient && final(self)@ == (RouterView {
                            transient: v.transient.insert(id@, n),
                            ..v
                        })
                    }
                } else if hold_outcome(*outcome) {
                    r == Settlement::Hold && final(self)@ == v
                } else {
                    r == Settlement::Acknowledge && final(self)@ == (RouterView {
                        transient: v.transient.remove(id@),
                        retained: v.retained.remove(id@),
                        ..v
                    })
                }
            }),
    {
        if is_transient_outcome(outcome) {
            if self.note_transient(id) {
                return Settlement::RetainTransient;
            }
            return Settlement::DeadLetterTransient;
        }
        if is_hold_outcome(outcome) {
            return Settlement::Hold;
        }
        self.finish_message(id);
        Settlement::Acknowledge
    }
}

impl Router {
    /// The pump's step for a drained message: a retry in course here holds it (a retention
    /// when `attempts == 0`); otherwise the ledger decides (delivered/dead → ack; failure pending
    /// → resume the retry; retained → resume the retention; routed without outcome → assume
    /// delivered and ack, as re-injecting is irreversible); a message not in the ledger is routed.
    pub fn pump_step(&self, id: &str, entry: Option<LedgerEntry>) -> (r: PumpStep)
        requires
            self.wf(),
        ensures
            r == pump_step_spec(
                if self@.retries.dom().contains(id@) {
                    Some((self@.retries[id@].target, self@.retries[id@].attempts))
                } else {
                    None
                },
                entry,
            ),
    {
        match self.pending_retry(id) {
            Some((t, a)) => {
                let outcome = if a == 0 {
                    RouteOutcome::Retained { to: t }
                } else {
                    RouteOutcome::RetryBackoff { to: t, attempt: a }
                };
                return PumpStep::Hold { outcome };
            },
            None => {},
        }
        match entry {
            None => PumpStep::Route,
            Some(l) => {
                if l.delivered || l.dead {
                    PumpStep::Acknowledge
                } else if l.failed.is_some() {
                    let (attempt, next_ms) = match l.failed {
                        Some(f) => f,
                        None => (0, 0),
                    };
                    match l.to_node {
                        Some(t) => PumpStep::ResumeRetry { target: t, attempt, next_ms, root: l.root, hops: l.hops },
                        None => PumpStep::Acknowledge,
                    }
                } else if l.retained_at.is_some() {
                    let at = match l.retained_at {
                        Some(x) => x,
                        None => 0,
                    };
                    match l.to_node {
                        Some(t) => PumpStep::ResumeRetention { target: t, retained_at: at, root: l.root, hops: l.hops },
                        None => PumpStep::Acknowledge,
                    }
                } else {
                    PumpStep::Acknowledge
                }
            },
        }
    }

    /// Resumes, after a restart, a retry whose attempt and schedule come from the log.
    pub fn rearm_retry(
        &mut self,
        id: &str,
        from: NodeId,
        target: NodeId,
        block: String,
        root: String,
        hops: u8,
        attempts: u32,
        next_ms: u64,
    )
        requires
            old(self).wf(),
        ensures
            final(self).wf(),
            final(self)@ == (RouterView {
                retries: old(self)@.retries.insert(
                    id@,
                    RetryState { from, target, block, root, hops, attempts, next_ms },
                ),
                ..old(self)@
            }),
    {
        self.retries.insert(id.to_string(), RetryState { from, target, block, root, hops, attempts, next_ms });
    }

    /// Resumes, after a restart, a retention because the prompt was not ready: the retention
    /// clock keeps its original start from the log (so the ceiling counts the TOTAL time), and the
    /// message re-enters the redelivery engine as a retention (`attempts == 0`).
    pub fn rearm_retention(
        &mut self,
        id: &str,
        from: NodeId,
        target: NodeId,
        block: String,
        root: String,
        hops: u8,
        retained_at: u64,
        now_ms: u64,
    )
        requires
            old(self).wf(),
        ensures
            final(self).wf(),
            final(self)@ == (RouterView {
                retained: if old(self)@.retained.dom().contains(id@) {
                    old(self)@.retained
                } else {
                    old(self)@.retained.insert(id@, retained_at)
                },
                retries: old(self)@.retries.insert(
                    id@,
                    RetryState {
                        from,
                        target,
                        block,
                        root,
                        hops,
                        attempts: 0,
                        next_ms: sat_add(now_ms, NOT_READY_BACKOFF_MS),
                    },
                ),
                ..old(self)@
            }),
    {
        let key = id.to_string();
        if !self.retained_since.contains_key(&key) {
            self.retained_since.insert(key.clone(), retained_at);
        }
        self.retries.insert(
            key,
            RetryState {
                from,
                target,
                block,
                root,
                hops,
                attempts: 0,
                next_ms: now_ms.saturating_add(NOT_READY_BACKOFF_MS),
            },
        );
    }
}

// ---------------------------------------------------------------------------------------------
// The redelivery engine.

/// A retry is due at `now`: its next attempt is scheduled at or before it.
pub struct DueAt {
    pub now: u64,
}

impl KeepRule<String, RetryState> for DueAt {
    open spec fn holds(&self, k: Seq<char>, v: RetryState) -> bool {
        v.next_ms <= self.now
    }

    fn keep(&self, k: &String, v: &RetryState) -> (r: bool) {
        v.next_ms <= self.now
    }
}

/// What the redelivery engine does with one due retry.
#[derive(Debug)]
pub enum RetryGate {
    /// Skip it this tick, without burning an attempt: no retry is pending, the target's breaker
    /// is open while it is still `Blocked`, or the target is `Busy`.
    Wait,
    /// Attempt the delivery again, with this retry state.
    Attempt { state: RetryState },
}

/// The decision on a due retry whose target has roster status `status`, and the state after it: an
/// open breaker on a node no longer `Blocked` was reset externally, so it closes and the node's
/// failures are forgotten (the same rule as the retention verdict).
pub open spec fn retry_gate_spec(v: RouterView, id: Seq<char>, status: Option<NodeStatus>) -> (RetryGate, RouterView) {
    if !v.retries.dom().contains(id) {
        (RetryGate::Wait, v)
    } else {
        let s = v.retries[id];
        let t = s.target;
        if v.breaker.contains(t) && status == Some(NodeStatus::Blocked) {
            (RetryGate::Wait, v)
        } else {
            let v2 = if v.breaker.contains(t) {
                RouterView { breaker: v.breaker.remove(t), failures: v.failures.remove(t), ..v }
            } else {
                v
            };
            if status == Some(NodeStatus::Busy) {
                (RetryGate::Wait, v2)
            } else {
                (RetryGate::Attempt { state: s }, v2)
            }
        }
    }
}

impl Router {
    /// The ids of the retries due at `now_ms` (next attempt at or before it), each once.
    pub fn due_retries(&self, now_ms: u64) -> (r: Vec<String>)
        requires
            self.wf(),
        ensures
            forall|a: int, b: int| 0 <= a < b < r@.len() ==> #[trigger] r@[a]@ != #[trigger] r@[b]@,
            forall|i: int| #![trigger r@[i]] 0 <= i < r@.len() ==> self@.retries.dom().contains(r@[i]@)
                && self@.retries[r@[i]@].next_ms <= now_ms,
            forall|q: Seq<char>| #[trigger] self@.retries.dom().contains(q) && self@.retries[q].next_ms <= now_ms
                ==> exists|i: int| #![trigger r@[i]] 0 <= i < r@.len() && r@[i]@ == q,
    {
        let rule = DueAt { now: now_ms };
        self.retries.keys_where(&rule)
    }

    /// Gates one due retry (see [`retry_gate_spec`]); `status` is the target's roster status.
    pub fn retry_gate(&mut self, id: &str, status: Option<NodeStatus>) -> (r: RetryGate)
        requires
            old(self).wf(),
        ensures
            final(self).wf(),
            (r, final(self)@) == retry_gate_spec(old(self)@, id@, status),
    {
        let ghost v = self@;
        let key = id.to_string();
        let s = match self.retries.get(&key) {
            None => return RetryGate::Wait,
            Some(s) => RetryState {
                from: s.from,
                target: s.target,
                block: s.block.clone(),
                root: s.root.clone(),
                hops: s.hops,
                attempts: s.attempts,
                next_ms: s.next_ms,
            },
        };
        let t = s.target;
        if self.breaker_open.contains_key(&t) {
            match status {
                Some(NodeStatus::Blocked) => return RetryGate::Wait,
                _ => {},
            }
            self.breaker_open.remove(&t);
            self.node_failures.remove(&t);
            proof {
                assert(self@.breaker =~= v.breaker.remove(t));
            }
        }
        match status {
            Some(NodeStatus::Busy) => RetryGate::Wait,
            _ => RetryGate::Attempt { state: s },
        }
    }

    /// A retry found the target's prompt still not ready: no strike and no attempt burnt. Past
    /// `retention_timeout_ms` of retention (counted from the first retention, or from now if none
    /// was recorded) it returns `true`: the message is dead and goes to the dead-letter queue;
    /// otherwise the retry is rescheduled `NOT_READY_BACKOFF_MS` later.
    pub fn retry_not_ready(&mut self, id: &str, now_ms: u64) -> (dead: bool)
        requires
            old(self).wf(),
        ensures
            final(self).wf(),
            ({
                let v = old(self)@;
                let first = if v.retained.dom().contains(id@) {
                    v.retained[id@]
                } else {
                    now_ms
                };
                &&& dead == (sat_sub(now_ms, first) >= v.config.retention_timeout_ms)
                &&& dead ==> final(self)@ == v
                &&& !dead ==> final(self)@ == (RouterView {
                    retries: if v.retries.dom().contains(id@) {
                        v.retries.insert(
                            id@,
                            RetryState { next_ms: sat_add(now_ms, NOT_READY_BACKOFF_MS), ..v.retries[id@] },
                        )
                    } else {
                        v.retries
                    },
                    ..v
                })
            }),
    {
        let key = id.to_string();
        let first = match self.retained_since.get(&key) {
            Some(f) => *f,
            None => now_ms,
        };
        if now_ms.saturating_sub(first) >= self.config.retention_timeout_ms {
            return true;
        }
        let next = match self.retries.get(&key) {
            None => return false,
            Some(s) => RetryState {
                from: s.from,
                target: s.target,
                block: s.block.clone(),
                root: s.root.clone(),
                hops: s.hops,
                attempts: s.attempts,
                next_ms: now_ms.saturating_add(NOT_READY_BACKOFF_MS),
            },
        };
        self.retries.insert(key, next);
        false
    }
}

/// After a delivery injected a turn, its target is `Busy` at once (so the next message to it is
/// retained without a race): the status it leaves, to log as `from` of the transition, or `None`
/// when the node is unknown, already `Busy` or `Dead` (then nothing is logged).
pub fn busy_after_delivery(status: Option<NodeStatus>) -> (r: Option<NodeStatus>)
    ensures
        r == match status {
            Some(s) => if s == NodeStatus::Busy || s == NodeStatus::Dead {
                None
            } else {
                Some(s)
            },
            None => None,
        },
{
    match status {
        Some(NodeStatus::Busy) | Some(NodeStatus::Dead) | None => None,
        Some(s) => Some(s),
    }
}

// ---------------------------------------------------------------------------------------------
// Goal verbs.

/// Why a goal verb is refused, if it is: `goal.define` needs a `statement`, `goal.interpret` and
/// `goal.confirm` need a `goal_id`, and any other goal intent is unknown.
pub open spec fn goal_refusal_spec(intent: Seq<char>, statement: Seq<char>, goal_id: Seq<char>) -> Option<Seq<char>> {
    if intent == seq!['g', 'o', 'a', 'l', '.', 'd', 'e', 'f', 'i', 'n', 'e'] {
        if statement.len() == 0 {
            Some(seq!['g', 'o', 'a', 'l', '.', 'd', 'e', 'f', 'i', 'n', 'e', ' ', 'e', 'x', 'i', 'g', 'e', ' ', '\'', 's', 't', 'a', 't', 'e', 'm', 'e', 'n', 't', '\''])
        } else {
            None
        }
    } else if intent == seq!['g', 'o', 'a', 'l', '.', 'i', 'n', 't', 'e', 'r', 'p', 'r', 'e', 't'] {
        if goal_id.len() == 0 {
            Some(seq!['g', 'o', 'a', 'l', '.', 'i', 'n', 't', 'e', 'r', 'p', 'r', 'e', 't', ' ', 'e', 'x', 'i', 'g', 'e', ' ', '\'', 'g', 'o', 'a', 'l', '_', 'i', 'd', '\''])
        } else {
            None
        }
    } else if intent == seq!['g', 'o', 'a', 'l', '.', 'c', 'o', 'n', 'f', 'i', 'r', 'm'] {
        if goal_id.len() == 0 {
            Some(seq!['g', 'o', 'a', 'l', '.', 'c', 'o', 'n', 'f', 'i', 'r', 'm', ' ', 'e', 'x', 'i', 'g', 'e', ' ', '\'', 'g', 'o', 'a', 'l', '_', 'i', 'd', '\''])
        } else {
            None
        }
    } else {
        Some(seq!['i', 'n', 't', 'e', 'n', 't', ' ', 'd', 'e', ' ', 'g', 'o', 'a', 'l', ' ', 'd', 'e', 's', 'c', 'o', 'n', 'h', 'e', 'c', 'i', 'd', 'o', ':', ' '] + intent)
    }
}

/// The shape check of a goal verb (`statement` and `goal_id` are the payload's text fields, empty
/// when absent): `Some(GoalRejected(reason))` when it is refused (see [`goal_refusal_spec`]), `None`
/// when the verb goes on to be logged.
pub fn goal_refusal(intent: &str, statement: &str, goal_id: &str) -> (r: Option<RouteOutcome>)
    ensures
        match goal_refusal_spec(intent@, statement@, goal_id@) {
            None => r is None,
            Some(m) => r matches Some(RouteOutcome::GoalRejected(x)) && x@ == m,
        },
{
    let i = chars_of(intent);
    let statement_empty = chars_of(statement).len() == 0;
    let id_empty = chars_of(goal_id).len() == 0;
    let msg: Vec<char> = if word_is(&i, vec!['g', 'o', 'a', 'l', '.', 'd', 'e', 'f', 'i', 'n', 'e']) {
        if !statement_empty {
            return None;
        }
        vec!['g', 'o', 'a', 'l', '.', 'd', 'e', 'f', 'i', 'n', 'e', ' ', 'e', 'x', 'i', 'g', 'e', ' ', '\'', 's', 't', 'a', 't', 'e', 'm', 'e', 'n', 't', '\'']
    } else if word_is(&i, vec!['g', 'o', 'a', 'l', '.', 'i', 'n', 't', 'e', 'r', 'p', 'r', 'e', 't']) {
        if !id_empty {
            return None;
        }
        vec!['g', 'o', 'a', 'l', '.', 'i', 'n', 't', 'e', 'r', 'p', 'r', 'e', 't', ' ', 'e', 'x', 'i', 'g', 'e', ' ', '\'', 'g', 'o', 'a', 'l', '_', 'i', 'd', '\'']
    } else if word_is(&i, vec!['g', 'o', 'a', 'l', '.', 'c', 'o', 'n', 'f', 'i', 'r', 'm']) {
        if !id_empty {
            return None;
        }
        vec!['g', 'o', 'a', 'l', '.', 'c', 'o', 'n', 'f', 'i', 'r', 'm', ' ', 'e', 'x', 'i', 'g', 'e', ' ', '\'', 'g', 'o', 'a', 'l', '_', 'i', 'd', '\'']
    } else {
        let mut m: Vec<char> = vec!['i', 'n', 't', 'e', 'n', 't', ' ', 'd', 'e', ' ', 'g', 'o', 'a', 'l', ' ', 'd', 'e', 's', 'c', 'o', 'n', 'h', 'e', 'c', 'i', 'd', 'o', ':', ' '];
        append_chars(&mut m, &i);
        m
    };
    Some(RouteOutcome::GoalRejected(string_of(&msg)))
}

// ---------------------------------------------------------------------------------------------
// The pipeline's dispatch.

/// Where the pipeline sends an admitted message, in its order.
#[derive(Debug, Clone, Copy, PartialEq, Eq, Structural)]
pub enum Dispatch {
    /// Queued by the brake (not marked as seen).
    Queued,
    /// Already seen in the dedupe window.
    Duplicate,
    /// A presence ping, absorbed.
    Presence,
    /// The sender is not in the live roster (logged as a block).
    UnknownSender,
    /// The envelope failed its shape validation (logged as a block).
    ContractRejected,
    /// The structured verbs, handled in the core and never delivered to a terminal.
    Plan,
    Spawn,
    Params,
    Effort,
    Goal,
    CodeChanged,
    BranchIntegrated,
    Correction,
    /// An ordinary message: through the guardrails ([`Router::guard_message`]) to delivery.
    Guardrails,
}

/// The pipeline's dispatch: the brake and dedupe first ([`admission`]), then presence, then the
/// sender's authentication and the envelope check, then the structured verbs in order, a
/// correction sentinel, and only then the guardrails and delivery.
pub open spec fn dispatch_spec(
    admitted: Admission,
    intent: Seq<char>,
    to_is_broadcast: bool,
    sender_known: bool,
    envelope_ok: bool,
    is_correction: bool,
) -> Dispatch {
    match admitted {
        Admission::Queued => Dispatch::Queued,
        Admission::Duplicate => Dispatch::Duplicate,
        Admission::Fresh => if intent == seq!['h', 'a', 'n', 'd', 's', 'h', 'a', 'k', 'e'] && to_is_broadcast {
            Dispatch::Presence
        } else if !sender_known {
            Dispatch::UnknownSender
        } else if !envelope_ok {
            Dispatch::ContractRejected
        } else if plan_intent(intent) {
            Dispatch::Plan
        } else if spawn_intent(intent) {
            Dispatch::Spawn
        } else if params_intent(intent) {
            Dispatch::Params
        } else if effort_intent(intent) {
            Dispatch::Effort
        } else if goal_intent(intent) {
            Dispatch::Goal
        } else if code_changed_intent(intent) {
            Dispatch::CodeChanged
        } else if branch_integrated_intent(intent) {
            Dispatch::BranchIntegrated
        } else if is_correction {
            Dispatch::Correction
        } else {
            Dispatch::Guardrails
        },
    }
}

/// Dispatches a message (see [`dispatch_spec`]): `admitted` is what [`Router::admit_message`]
/// answered, `sender_known` whether the sender resolved in the roster, `envelope_ok` whether the
/// envelope passed its validation, and `is_correction` whether the payload carries the correction
/// sentinel.
pub fn dispatch(
    admitted: Admission,
    intent: &str,
    to_is_broadcast: bool,
    sender_known: bool,
    envelope_ok: bool,
    is_correction: bool,
) -> (r: Dispatch)
    ensures
        r == dispatch_spec(admitted, intent@, to_is_broadcast, sender_known, envelope_ok, is_correction),
{
    match admitted {
        Admission::Queued => return Dispatch::Queued,
        Admission::Duplicate => return Dispatch::Duplicate,
        Admission::Fresh => {},
    }
    if is_presence(intent, to_is_broadcast) {
        Dispatch::Presence
    } else if !sender_known {
        Dispatch::UnknownSender
    } else if !envelope_ok {
        Dispatch::ContractRejected
    } else if is_plan_intent(intent) {
        Dispatch::Plan
    } else if is_spawn_intent(intent) {
        Dispatch::Spawn
    } else if is_params_intent(intent) {
        Dispatch::Params
    } else if is_effort_intent(intent) {
        Dispatch::Effort
    } else if is_goal_intent(intent) {
        Dispatch::Goal
    } else if is_code_changed_intent(intent) {
        Dispatch::CodeChanged
    } else if is_branch_integrated_intent(intent) {
        Dispatch::BranchIntegrated
    } else if is_correction {
        Dispatch::Correction
    } else {
        Dispatch::Guardrails
    }
}

// ---------------------------------------------------------------------------------------------
// Shape checks and stamps of the plan, code and correction verbs.

/// `plan.add` needs its `item`: the refusal when it is empty.
pub fn plan_add_refusal(item: &str) -> (r: Option<RouteOutcome>)
    ensures
        item@.len() == 0 ==> (r matches Some(RouteOutcome::PlanRejected(m)) && m@ == seq!['p', 'l', 'a', 'n', '.', 'a', 'd', 'd', ' ', 'e', 'x', 'i', 'g', 'e', ' ', 'o', ' ', 'c', 'a', 'm', 'p', 'o', ' ', '\'', 'i', 't', 'e', 'm', '\'']),
        item@.len() > 0 ==> r is None,
{
    if chars_of(item).len() == 0 {
        Some(RouteOutcome::PlanRejected(string_of(&vec!['p', 'l', 'a', 'n', '.', 'a', 'd', 'd', ' ', 'e', 'x', 'i', 'g', 'e', ' ', 'o', ' ', 'c', 'a', 'm', 'p', 'o', ' ', '\'', 'i', 't', 'e', 'm', '\''])))
    } else {
        None
    }
}

/// `code.changed` needs its `branch`: the refusal when it is empty.
pub fn code_changed_refusal(branch: &str) -> (r: Option<RouteOutcome>)
    ensures
        branch@.len() == 0 ==> (r matches Some(RouteOutcome::ContractRejected(m)) && m@ == seq!['c', 'o', 'd', 'e', '.', 'c', 'h', 'a', 'n', 'g', 'e', 'd', ' ', 'e', 'x', 'i', 'g', 'e', ' ', '\'', 'b', 'r', 'a', 'n', 'c', 'h', '\'', ' ', 'n', 'o', ' ', 'p', 'a', 'y', 'l', 'o', 'a', 'd']),
        branch@.len() > 0 ==> r is None,
{
    if chars_of(branch).len() == 0 {
        Some(RouteOutcome::ContractRejected(string_of(&vec!['c', 'o', 'd', 'e', '.', 'c', 'h', 'a', 'n', 'g', 'e', 'd', ' ', 'e', 'x', 'i', 'g', 'e', ' ', '\'', 'b', 'r', 'a', 'n', 'c', 'h', '\'', ' ', 'n', 'o', ' ', 'p', 'a', 'y', 'l', 'o', 'a', 'd'])))
    } else {
        None
    }
}

/// `branch.integrated` needs its `branch`: the refusal when it is empty.
pub fn branch_integrated_refusal(branch: &str) -> (r: Option<RouteOutcome>)
    ensures
        branch@.len() == 0 ==> (r matches Some(RouteOutcome::ContractRejected(m)) && m@ == seq!['b', 'r', 'a', 'n', 'c', 'h', '.', 'i', 'n', 't', 'e', 'g', 'r', 'a', 't', 'e', 'd', ' ', 'e', 'x', 'i', 'g', 'e', ' ', '\'', 'b', 'r', 'a', 'n', 'c', 'h', '\'', ' ', 'n', 'o', ' ', 'p', 'a', 'y', 'l', 'o', 'a', 'd']),
        branch@.len() > 0 ==> r is None,
{
    if chars_of(branch).len() == 0 {
        Some(RouteOutcome::ContractRejected(string_of(&vec!['b', 'r', 'a', 'n', 'c', 'h', '.', 'i', 'n', 't', 'e', 'g', 'r', 'a', 't', 'e', 'd', ' ', 'e', 'x', 'i', 'g', 'e', ' ', '\'', 'b', 'r', 'a', 'n', 'c', 'h', '\'', ' ', 'n', 'o', ' ', 'p', 'a', 'y', 'l', 'o', 'a', 'd'])))
    } else {
        None
    }
}

/// What a `code.changed` reads of one plan item: its owner's name and live node, whether it is
/// being worked on (`Doing`), and whether its reserved paths intersect the changed ones.
#[derive(Debug, Clone)]
pub struct ClaimFacts {
    pub owner: Option<String>,
    pub owner_node: Option<NodeId>,
    pub doing: bool,
    pub intersects: bool,
}

/// The owners to warn of a `code.changed` by `author` (the authenticated sender's name, never a
/// payload field), in plan order: each live owner, other than the author, of an item in progress
/// whose reserved paths the change touches, once.
pub open spec fn notices(author: Seq<char>, items: Seq<ClaimFacts>) -> Seq<NodeId>
    decreases items.len(),
{
    if items.len() == 0 {
        Seq::empty()
    } else {
        let acc = notices(author, items.drop_last());
        let it = items.last();
        match (it.owner, it.owner_node) {
            (Some(o), Some(n)) => if o@ != author && it.doing && it.intersects && !acc.contains(n) {
                acc.push(n)
            } else {
                acc
            },
            _ => acc,
        }
    }
}

/// The owners a `code.changed` warns (see [`notices`]).
pub fn code_changed_notices(author: &str, items: &Vec<ClaimFacts>) -> (r: Vec<NodeId>)
    ensures
        r@ == notices(author@, items@),
{
    let a = chars_of(author);
    let mut out: Vec<NodeId> = Vec::new();
    let mut i: usize = 0;
    while i < items.len()
        invariant
            i <= items@.len(),
            a@ == author@,
            out@ == notices(author@, items@.take(i as int)),
        decreases items.len() - i,
    {
        assert(items@.take(i + 1).drop_last() =~= items@.take(i as int));
        let it = &items[i];
        match (&it.owner, it.owner_node) {
            (Some(o), Some(n)) => {
                if !chars_equal(&chars_of(o.as_str()), &a) && it.doing && it.intersects {
                    let mut seen = false;
                    let mut k: usize = 0;
                    while k < out.len()
                        invariant
                            k <= out@.len(),
                            seen == out@.take(k as int).contains(n),
                        decreases out.len() - k,
                    {
                        proof {
                            let s0 = out@.take(k as int);
                            let s1 = out@.take(k + 1);
                            assert(s1 =~= s0.push(out@[k as int]));
                            if s1.contains(n) && out@[k as int] != n {
                                let j = choose|j: int| 0 <= j < s1.len() && s1[j] == n;
                                assert(s0[j] == n);
                            }
                            if s0.contains(n) {
                                let j = choose|j: int| 0 <= j < s0.len() && s0[j] == n;
                                assert(s1[j] == n);
                            }
                            if out@[k as int] == n {
                                assert(s1[k as int] == n);
                            }
                        }
                        if out[k] == n {
                            seen = true;
                        }
                        k = k + 1;
                    }
                    assert(out@.take(out@.len() as int) =~= out@);
                    if !seen {
                        out.push(n);
                    }
                }
            },
            _ => {},
        }
        i = i + 1;
    }
    assert(items@.take(items@.len() as int) =~= items@);
    out
}

/// A captured correction: the role is the sender's as the roster projects it (empty when it has
/// none), never the agent's text; the source message is referenced.
#[derive(Debug, Clone, PartialEq, Eq)]
pub struct CorrectionEvent {
    pub role: String,
    pub summary: String,
    pub refs: Vec<String>,
}

/// The correction event of message `msg_id` from a sender whose projected role is `role`.
pub fn correction_event(role: Option<&str>, summary: &str, msg_id: &str) -> (r: CorrectionEvent)
    ensures
        r.role@ == match role {
            Some(x) => x@,
            None => Seq::empty(),
        },
        r.summary@ == summary@,
        views(r.refs@) == seq![msg_id@],
{
    let role_text = match role {
        Some(x) => x.to_string(),
        None => string_of(&Vec::new()),
    };
    let refs = vec![msg_id.to_string()];
    assert(views(refs@) =~= seq![msg_id@]);
    CorrectionEvent { role: role_text, summary: summary.to_string(), refs }
}

// ---------------------------------------------------------------------------------------------
// Parameters verbs.

/// What a parameters verb (`params.set` / `params.reset`) comes to.
#[derive(Debug, Clone, PartialEq, Eq)]
pub enum ParamsVerdict {
    /// Log the change: `new` is the value set (empty for a reset, which inherits again), `by` the
    /// stamp of the origin (`human`) or of the cascade (`maestro`), never the payload's.
    Applied { key: String, scope: String, new: String, target: Option<String>, by: String },
    /// Refused, with the reason.
    Rejected(String),
    /// Lowering a balancing loop below its default weakens a defence: gated for a human.
    Gated { key: String },
}

/// The model of a [`ParamsVerdict`] (texts by their views).
pub enum ParamsModel {
    Applied { key: Seq<char>, scope: Seq<char>, new: Seq<char>, target: Option<Seq<char>>, by: Seq<char> },
    Rejected(Seq<char>),
    Gated { key: Seq<char> },
}

/// The model of a verdict.
pub open spec fn params_model(r: ParamsVerdict) -> ParamsModel {
    match r {
        ParamsVerdict::Applied { key, scope, new, target, by } => ParamsModel::Applied {
            key: key@,
            scope: scope@,
            new: new@,
            target: match target {
                Some(t) => Some(t@),
                None => None,
            },
            by: by@,
        },
        ParamsVerdict::Rejected(m) => ParamsModel::Rejected(m@),
        ParamsVerdict::Gated { key } => ParamsModel::Gated { key: key@ },
    }
}

/// The stamp of who changed a parameter: the human at the origin (`hops == 0`), else the cascade.
pub open spec fn params_by(hops: u8) -> Seq<char> {
    if hops == 0 {
        seq!['h', 'u', 'm', 'a', 'n']
    } else {
        seq!['m', 'a', 'e', 's', 't', 'r', 'o']
    }
}

/// The checks of a parameters verb, in order: `key` and `scope` are required; `params.set`
/// refuses a value out of range (`range_error`, the range check's reason) rather than clamping
/// it, and gates for a human a change that weakens a balancing loop; `params.reset` writes an
/// empty value; any other intent is unknown. `by` follows the sender's chain, never the payload.
pub open spec fn params_verdict_spec(
    intent: Seq<char>,
    key: Seq<char>,
    scope: Seq<char>,
    value: Seq<char>,
    target: Option<Seq<char>>,
    range_error: Option<Seq<char>>,
    weakens_balancing_loop: bool,
    hops: u8,
) -> ParamsModel {
    if key.len() == 0 || scope.len() == 0 {
        ParamsModel::Rejected(seq!['p', 'a', 'r', 'a', 'm', 's', ' ', 'e', 'x', 'i', 'g', 'e', ' ', '\'', 'k', 'e', 'y', '\'', ' ', 'e', ' ', '\'', 's', 'c', 'o', 'p', 'e', '\''])
    } else if intent == seq!['p', 'a', 'r', 'a', 'm', 's', '.', 's', 'e', 't'] {
        match range_error {
            Some(e) => ParamsModel::Rejected(e),
            None => if weakens_balancing_loop {
                ParamsModel::Gated { key }
            } else {
                ParamsModel::Applied { key, scope, new: value, target, by: params_by(hops) }
            },
        }
    } else if intent == seq!['p', 'a', 'r', 'a', 'm', 's', '.', 'r', 'e', 's', 'e', 't'] {
        ParamsModel::Applied { key, scope, new: Seq::empty(), target, by: params_by(hops) }
    } else {
        ParamsModel::Rejected(seq!['i', 'n', 't', 'e', 'n', 't', ' ', 'd', 'e', ' ', 'p', 'a', 'r', 'a', 'm', 's', ' ', 'd', 'e', 's', 'c', 'o', 'n', 'h', 'e', 'c', 'i', 'd', 'o', ':', ' '] + intent)
    }
}

/// Decides a parameters verb (see [`params_verdict_spec`]). `key`, `scope`, `value` and `target`
/// are the payload's fields (empty text when absent); `range_error` is the range check of the
/// value for `key`, `weakens_balancing_loop` whether the value lowers a balancing loop below its
/// default, and `hops` the depth the sender's binding gives.
pub fn params_verdict(
    intent: &str,
    key: &str,
    scope: &str,
    value: &str,
    target: Option<&str>,
    range_error: Option<&str>,
    weakens_balancing_loop: bool,
    hops: u8,
) -> (r: ParamsVerdict)
    ensures
        params_model(r) == params_verdict_spec(
            intent@,
            key@,
            scope@,
            value@,
            match target {
                Some(t) => Some(t@),
                None => None,
            },
            match range_error {
                Some(e) => Some(e@),
                None => None,
            },
            weakens_balancing_loop,
            hops,
        ),
{
    if chars_of(key).len() == 0 || chars_of(scope).len() == 0 {
        return ParamsVerdict::Rejected(string_of(&vec!['p', 'a', 'r', 'a', 'm', 's', ' ', 'e', 'x', 'i', 'g', 'e', ' ', '\'', 'k', 'e', 'y', '\'', ' ', 'e', ' ', '\'', 's', 'c', 'o', 'p', 'e', '\'']));
    }
    let i = chars_of(intent);
    let by = if hops == 0 {
        string_of(&vec!['h', 'u', 'm', 'a', 'n'])
    } else {
        string_of(&vec!['m', 'a', 'e', 's', 't', 'r', 'o'])
    };
    let t = match target {
        Some(x) => Some(x.to_string()),
        None => None,
    };
    if word_is(&i, vec!['p', 'a', 'r', 'a', 'm', 's', '.', 's', 'e', 't']) {
        match range_error {
            Some(e) => ParamsVerdict::Rejected(e.to_string()),
            None => if weakens_balancing_loop {
                ParamsVerdict::Gated { key: key.to_string() }
            } else {
                ParamsVerdict::Applied { key: key.to_string(), scope: scope.to_string(), new: value.to_string(), target: t, by }
            },
        }
    } else if word_is(&i, vec!['p', 'a', 'r', 'a', 'm', 's', '.', 'r', 'e', 's', 'e', 't']) {
        let empty: Vec<char> = Vec::new();
        ParamsVerdict::Applied { key: key.to_string(), scope: scope.to_string(), new: string_of(&empty), target: t, by }
    } else {
        let mut m: Vec<char> = vec!['i', 'n', 't', 'e', 'n', 't', ' ', 'd', 'e', ' ', 'p', 'a', 'r', 'a', 'm', 's', ' ', 'd', 'e', 's', 'c', 'o', 'n', 'h', 'e', 'c', 'i', 'd', 'o', ':', ' '];
        append_chars(&mut m, &i);
        ParamsVerdict::Rejected(string_of(&m))
    }
}

// ---------------------------------------------------------------------------------------------
// Goal events.

/// How an acceptance criterion is checked.
#[derive(Debug, Clone, Copy, PartialEq, Eq, Structural)]
pub enum CheckKind {
    /// A human confirms it.
    HumanReview,
    /// A command's exit code decides it.
    Command,
    /// A test run decides it.
    TestPass,
}

/// An acceptance criterion of a goal.
#[derive(Debug, Clone, PartialEq, Eq)]
pub struct GoalCriterion {
    pub desc: String,
    pub check_kind: CheckKind,
    pub check_arg: Option<String>,
}

/// The event a goal verb logs (the id of a new goal is minted by the caller).
#[derive(Debug, Clone, PartialEq, Eq)]
pub enum GoalEvent {
    /// `goal.define`: the statement, the sender's chain root, the entry channel and the budget.
    Defined { goal_id: String, statement: String, root_cause_id: String, origin: String, budget_tokens: u64 },
    /// `goal.interpret`: a proposal (it authorizes nothing).
    Interpreted {
        goal_id: String,
        interpretation: String,
        strategy: String,
        proposed_team: Vec<String>,
        acceptance_criteria: Vec<GoalCriterion>,
    },
    /// `goal.confirm`: the human gate of the goal, stamped with who confirmed.
    Confirmed { goal_id: String, by: NodeId, amended_statement: Option<String> },
}

/// `e` is the event of the goal verb `intent` on these fields: `goal.define` takes its root from
/// the sender's chain binding (`root`) and its channel from the roster (`origin`); `goal.interpret`
/// forces every proposed criterion to `HumanReview` with no argument (an agent never injects a
/// machine check at goal level); `goal.confirm` is stamped `by` the authenticated sender.
pub open spec fn goal_event_is(
    e: GoalEvent,
    intent: Seq<char>,
    statement: Seq<char>,
    goal_id: Seq<char>,
    interpretation: Seq<char>,
    strategy: Seq<char>,
    team: Seq<Seq<char>>,
    descs: Seq<Seq<char>>,
    amended: Option<Seq<char>>,
    budget_tokens: u64,
    sender: NodeId,
    root: Seq<char>,
    origin: Seq<char>,
) -> bool {
    if intent == seq!['g', 'o', 'a', 'l', '.', 'd', 'e', 'f', 'i', 'n', 'e'] {
        e matches GoalEvent::Defined { goal_id: g, statement: s, root_cause_id: rc, origin: o, budget_tokens: b } && g@ == goal_id
            && s@ == statement
            && rc@ == root && o@ == origin && b == budget_tokens
    } else if intent == seq!['g', 'o', 'a', 'l', '.', 'i', 'n', 't', 'e', 'r', 'p', 'r', 'e', 't'] {
        e matches GoalEvent::Interpreted {
            goal_id: g,
            interpretation: i,
            strategy: st,
            proposed_team: pt,
            acceptance_criteria: ac,
        } && g@ == goal_id && i@ == interpretation && st@ == strategy && views(pt@) == team && ac@.len()
            == descs.len() && forall|k: int| 0 <= k < ac@.len() ==> (#[trigger] ac@[k]).desc@ == descs[k]
            && ac@[k].check_kind == CheckKind::HumanReview && ac@[k].check_arg is None
    } else {
        e matches GoalEvent::Confirmed { goal_id: g, by, amended_statement: a } && g@ == goal_id && by == sender
            && match a {
            Some(x) => amended == Some(x@),
            None => amended is None,
        }
    }
}

fn human_review_criteria(descs: &Vec<String>) -> (r: Vec<GoalCriterion>)
    ensures
        r@.len() == descs@.len(),
        forall|k: int| 0 <= k < r@.len() ==> (#[trigger] r@[k]).desc@ == descs@[k]@ && r@[k].check_kind
            == CheckKind::HumanReview && r@[k].check_arg is None,
{
    let mut r: Vec<GoalCriterion> = Vec::new();
    let mut i: usize = 0;
    while i < descs.len()
        invariant
            i <= descs@.len(),
            r@.len() == i,
            forall|k: int| 0 <= k < r@.len() ==> (#[trigger] r@[k]).desc@ == descs@[k]@ && r@[k].check_kind
                == CheckKind::HumanReview && r@[k].check_arg is None,
        decreases descs.len() - i,
    {
        r.push(GoalCriterion { desc: descs[i].clone(), check_kind: CheckKind::HumanReview, check_arg: None });
        i = i + 1;
    }
    r
}

/// The event of a goal verb, or its refusal (see [`goal_refusal_spec`] and [`goal_event_is`]).
/// The text fields are the payload's (empty when absent), `criteria_descs` the descriptions of
/// the proposed acceptance criteria (their kinds and arguments are dropped), `sender` the
/// authenticated sender (or the human-gesture sentinel), `root` the root its chain binding gives
/// and `origin` the entry channel of the roster.
pub fn goal_event(
    intent: &str,
    statement: &str,
    goal_id: &str,
    interpretation: &str,
    strategy: &str,
    proposed_team: &Vec<String>,
    criteria_descs: &Vec<String>,
    amended: Option<&str>,
    budget_tokens: u64,
    sender: NodeId,
    root: &str,
    origin: &str,
) -> (r: Result<GoalEvent, RouteOutcome>)
    ensures
        match goal_refusal_spec(intent@, statement@, goal_id@) {
            Some(m) => r matches Err(RouteOutcome::GoalRejected(x)) && x@ == m,
            None => r matches Ok(e) && goal_event_is(
                e,
                intent@,
                statement@,
                goal_id@,
                interpretation@,
                strategy@,
                views(proposed_team@),
                views(criteria_descs@),
                match amended {
                    Some(a) => Some(a@),
                    None => None,
                },
                budget_tokens,
                sender,
                root@,
                origin@,
            ),
        },
{
    match goal_refusal(intent, statement, goal_id) {
        Some(refusal) => return Err(refusal),
        None => {},
    }
    let i = chars_of(intent);
    if word_is(&i, vec!['g', 'o', 'a', 'l', '.', 'd', 'e', 'f', 'i', 'n', 'e']) {
        Ok(
            GoalEvent::Defined {
                goal_id: goal_id.to_string(),
                statement: statement.to_string(),
                root_cause_id: root.to_string(),
                origin: origin.to_string(),
                budget_tokens,
            },
        )
    } else if word_is(&i, vec!['g', 'o', 'a', 'l', '.', 'i', 'n', 't', 'e', 'r', 'p', 'r', 'e', 't']) {
        let criteria = human_review_criteria(criteria_descs);
        Ok(
            GoalEvent::Interpreted {
                goal_id: goal_id.to_string(),
                interpretation: interpretation.to_string(),
                strategy: strategy.to_string(),
                proposed_team: clone_strings(proposed_team),
                acceptance_criteria: criteria,
            },
        )
    } else {
        let a = match amended {
            Some(x) => Some(x.to_string()),
            None => None,
        };
        Ok(GoalEvent::Confirmed { goal_id: goal_id.to_string(), by: sender, amended_statement: a })
    }
}

// ---------------------------------------------------------------------------------------------
// The JSON payloads of the structured verbs.

/// The text at `key` of a JSON object payload: `None` when the payload is not JSON, or has no
/// text there.
pub uninterp spec fn json_text_field(payload: Seq<char>, key: Seq<char>) -> Option<Seq<char>>;

/// The non-negative integer (fitting in `u64`) at `key` of a JSON payload.
pub uninterp spec fn json_u64_field(payload: Seq<char>, key: Seq<char>) -> Option<u64>;

/// The texts of the array at `key` of a JSON payload, in order, skipping items that are not text
/// (empty when there is no array there).
pub uninterp spec fn json_text_list(payload: Seq<char>, key: Seq<char>) -> Seq<Seq<char>>;

/// The `desc` texts of the objects of the array at `acceptance` of a JSON payload, in order,
/// skipping items without one.
pub uninterp spec fn json_criteria_descs(payload: Seq<char>) -> Seq<Seq<char>>;

/// The error text of parsing a payload as JSON, `None` when it parses.
pub uninterp spec fn json_parse_error(payload: Seq<char>) -> Option<Seq<char>>;

/// A text field, empty when absent.
pub open spec fn text_or_empty(o: Option<Seq<char>>) -> Seq<char> {
    match o {
        Some(s) => s,
        None => Seq::empty(),
    }
}

/// The view of an optional text.
pub open spec fn opt_view(o: Option<String>) -> Option<Seq<char>> {
    match o {
        Some(s) => Some(s@),
        None => None,
    }
}

/// `serde_json::from_str` into a `Value`, then `get(key)` and `as_str`: claimed equal to
/// [`json_text_field`], a function of the payload and key alone.
#[verifier::external_body]
fn json_text(payload: &str, key: &str) -> (r: Option<String>)
    ensures
        opt_view(r) == json_text_field(payload@, key@),
{
    serde_json::from_str::<serde_json::Value>(payload)
        .ok()
        .and_then(|v| v.get(key).and_then(serde_json::Value::as_str).map(String::from))
}

/// `serde_json::from_str` into a `Value`, then `get(key)` and `as_u64`: claimed equal to
/// [`json_u64_field`].
#[verifier::external_body]
fn json_u64(payload: &str, key: &str) -> (r: Option<u64>)
    ensures
        r == json_u64_field(payload@, key@),
{
    serde_json::from_str::<serde_json::Value>(payload).ok().and_then(|v| v.get(key).and_then(serde_json::Value::as_u64))
}

/// `serde_json::from_str` into a `Value`, then the texts of the array at `key`: claimed equal to
/// [`json_text_list`].
#[verifier::external_body]
fn json_texts(payload: &str, key: &str) -> (r: Vec<String>)
    ensures
        views(r@) == json_text_list(payload@, key@),
{
    serde_json::from_str::<serde_json::Value>(payload)
        .ok()
        .and_then(|v| v.get(key).and_then(serde_json::Value::as_array).cloned())
        .map(|arr| arr.iter().filter_map(|x| x.as_str().map(String::from)).collect())
        .unwrap_or_default()
}

/// `serde_json::from_str` into a `Value`, then the `desc` of each object of the array at
/// `acceptance`: claimed equal to [`json_criteria_descs`].
#[verifier::external_body]
fn json_descs(payload: &str) -> (r: Vec<String>)
    ensures
        views(r@) == json_criteria_descs(payload@),
{
    serde_json::from_str::<serde_json::Value>(payload)
        .ok()
        .and_then(|v| v.get("acceptance").and_then(serde_json::Value::as_array).cloned())
        .map(|arr| arr.iter().filter_map(|c| c.get("desc").and_then(serde_json::Value::as_str).map(String::from)).collect())
        .unwrap_or_default()
}

/// `serde_json::from_str` into a `Value`: claimed to fail exactly when [`json_parse_error`] is
/// some text, which is the error's `Display`.
#[verifier::external_body]
fn json_error(payload: &str) -> (r: Option<String>)
    ensures
        opt_view(r) == json_parse_error(payload@),
{
    serde_json::from_str::<serde_json::Value>(payload).err().map(|e| e.to_string())
}

/// `uuid::Uuid::now_v7()` in its hyphenated text: claimed 36 characters, with the version `7` at
/// position 14 and hyphens at 8, 13, 18 and 23; the value depends on the clock and chance.
#[verifier::external_body]
fn mint_goal_id() -> (r: String)
    ensures
        r@.len() == 36,
        r@[14] == '7',
        r@[8] == '-' && r@[13] == '-' && r@[18] == '-' && r@[23] == '-',
{
    uuid::Uuid::now_v7().to_string()
}

/// A goal verb decoded and decided: the goal's id (minted for `goal.define`), the event to log,
/// and whether the team is to be assembled now.
#[derive(Debug, Clone, PartialEq, Eq)]
pub struct GoalCommand {
    pub goal_id: String,
    pub event: GoalEvent,
    pub assemble_team: bool,
}

/// What a goal verb with this payload comes to (see [`goal_refusal_spec`], [`goal_event_is`] and
/// [`Router::confirm_assembles_team`]): text fields absent from the payload (or an invalid
/// payload) read as empty, the budget as 0; `goal.define` mints its id; a confirmation assembles
/// the team only from the human gesture or under `autonomous` autonomy.
pub open spec fn goal_command_holds(
    r: Result<GoalCommand, RouteOutcome>,
    intent: Seq<char>,
    payload: Seq<char>,
    sender: NodeId,
    root: Seq<char>,
    origin: Seq<char>,
    autonomy: AutonomyLevel,
) -> bool {
    let statement = text_or_empty(json_text_field(payload, seq!['s', 't', 'a', 't', 'e', 'm', 'e', 'n', 't']));
    let gid = text_or_empty(json_text_field(payload, seq!['g', 'o', 'a', 'l', '_', 'i', 'd']));
    match goal_refusal_spec(intent, statement, gid) {
        Some(m) => r matches Err(RouteOutcome::GoalRejected(x)) && x@ == m,
        None => r matches Ok(c) && (if intent == seq!['g', 'o', 'a', 'l', '.', 'd', 'e', 'f', 'i', 'n', 'e'] {
            c.goal_id@.len() == 36
        } else {
            c.goal_id@ == gid
        }) && goal_event_is(
            c.event,
            intent,
            statement,
            c.goal_id@,
            text_or_empty(json_text_field(payload, seq!['i', 'n', 't', 'e', 'r', 'p', 'r', 'e', 't', 'a', 't', 'i', 'o', 'n'])),
            text_or_empty(json_text_field(payload, seq!['s', 't', 'r', 'a', 't', 'e', 'g', 'y'])),
            json_text_list(payload, seq!['p', 'r', 'o', 'p', 'o', 's', 'e', 'd', '_', 't', 'e', 'a', 'm']),
            json_criteria_descs(payload),
            json_text_field(payload, seq!['a', 'm', 'e', 'n', 'd', 'e', 'd', '_', 's', 't', 'a', 't', 'e', 'm', 'e', 'n', 't']),
            match json_u64_field(payload, seq!['b', 'u', 'd', 'g', 'e', 't', '_', 't', 'o', 'k', 'e', 'n', 's']) {
                Some(b) => b,
                None => 0,
            },
            sender,
            root,
            origin,
        ) && c.assemble_team == (intent == seq!['g', 'o', 'a', 'l', '.', 'c', 'o', 'n', 'f', 'i', 'r', 'm'] && (sender == HUMAN_GESTURE || autonomy
            == AutonomyLevel::Autonomous)),
    }
}

impl Router {
    /// A goal verb from its raw payload: decodes the fields, refuses a malformed verb, mints the id
    /// of a new goal and builds the event stamped server-side (see [`goal_command_holds`]).
    /// `sender` is the authenticated sender (or the human-gesture sentinel), `root` the root its
    /// chain binding gives and `origin` the entry channel of the roster.
    pub fn goal_command(&self, intent: &str, payload: &str, sender: NodeId, root: &str, origin: &str) -> (r: Result<GoalCommand, RouteOutcome>)
        ensures
            goal_command_holds(r, intent@, payload@, sender, root@, origin@, self@.config.autonomy),
    {
        let statement = match json_text(payload, "statement") {
            Some(s) => s,
            None => string_of(&Vec::new()),
        };
        let gid = match json_text(payload, "goal_id") {
            Some(s) => s,
            None => string_of(&Vec::new()),
        };
        proof {
            assert("statement"@ =~= seq!['s', 't', 'a', 't', 'e', 'm', 'e', 'n', 't']) by {

                reveal_strlit("statement");

            }
            assert("goal_id"@ =~= seq!['g', 'o', 'a', 'l', '_', 'i', 'd']) by {

                reveal_strlit("goal_id");

            }
            assert("interpretation"@ =~= seq!['i', 'n', 't', 'e', 'r', 'p', 'r', 'e', 't', 'a', 't', 'i', 'o', 'n']) by {

                reveal_strlit("interpretation");

            }
            assert("strategy"@ =~= seq!['s', 't', 'r', 'a', 't', 'e', 'g', 'y']) by {

                reveal_strlit("strategy");

            }
            assert("proposed_team"@ =~= seq!['p', 'r', 'o', 'p', 'o', 's', 'e', 'd', '_', 't', 'e', 'a', 'm']) by {

                reveal_strlit("proposed_team");

            }
            assert("amended_statement"@ =~= seq!['a', 'm', 'e', 'n', 'd', 'e', 'd', '_', 's', 't', 'a', 't', 'e', 'm', 'e', 'n', 't']) by {

                reveal_strlit("amended_statement");

            }
            assert("budget_tokens"@ =~= seq!['b', 'u', 'd', 'g', 'e', 't', '_', 't', 'o', 'k', 'e', 'n', 's']) by {

                reveal_strlit("budget_tokens");

            }
        }
        match goal_refusal(intent, statement.as_str(), gid.as_str()) {
            Some(refusal) => return Err(refusal),
            None => {},
        }
        let i = chars_of(intent);
        let is_define = word_is(&i, vec!['g', 'o', 'a', 'l', '.', 'd', 'e', 'f', 'i', 'n', 'e']);
        let id = if is_define {
            mint_goal_id()
        } else {
            gid
        };
        let interpretation = match json_text(payload, "interpretation") {
            Some(s) => s,
            None => string_of(&Vec::new()),
        };
        let strategy = match json_text(payload, "strategy") {
            Some(s) => s,
            None => string_of(&Vec::new()),
        };
        let team = json_texts(payload, "proposed_team");
        let descs = json_descs(payload);
        let amended = json_text(payload, "amended_statement");
        let budget = match json_u64(payload, "budget_tokens") {
            Some(b) => b,
            None => 0,
        };
        let amended_ref: Option<&str> = match &amended {
            Some(a) => Some(a.as_str()),
            None => None,
        };
        let event = match goal_event(
            intent,
            statement.as_str(),
            id.as_str(),
            interpretation.as_str(),
            strategy.as_str(),
            &team,
            &descs,
            amended_ref,
            budget,
            sender,
            root,
            origin,
        ) {
            Ok(e) => e,
            Err(refusal) => return Err(refusal),
        };
        let is_confirm = word_is(&i, vec!['g', 'o', 'a', 'l', '.', 'c', 'o', 'n', 'f', 'i', 'r', 'm']);
        let assemble = is_confirm && self.confirm_assembles_team(sender);
        Ok(GoalCommand { goal_id: id, event, assemble_team: assemble })
    }
}

/// The parameters verb from its raw payload: an invalid payload is refused with the parser's
/// error; otherwise `key`, `scope` and `value` read as empty when absent and `target` as none,
/// and [`params_verdict_spec`] decides. `range_error` and `weakens_balancing_loop` are the range
/// and balancing-loop checks of the payload's `key` and `value`.
pub fn params_from_payload(
    intent: &str,
    payload: &str,
    range_error: Option<&str>,
    weakens_balancing_loop: bool,
    hops: u8,
) -> (r: ParamsVerdict)
    ensures
        match json_parse_error(payload@) {
            Some(e) => params_model(r) == ParamsModel::Rejected(seq!['p', 'a', 'y', 'l', 'o', 'a', 'd', ' ', 'd', 'e', ' ', 'p', 'a', 'r', 'a', 'm', 's', ' ', 'i', 'n', 'v', 'á', 'l', 'i', 'd', 'o', ':', ' '] + e),
            None => params_model(r) == params_verdict_spec(
                intent@,
                text_or_empty(json_text_field(payload@, seq!['k', 'e', 'y'])),
                text_or_empty(json_text_field(payload@, seq!['s', 'c', 'o', 'p', 'e'])),
                text_or_empty(json_text_field(payload@, seq!['v', 'a', 'l', 'u', 'e'])),
                json_text_field(payload@, seq!['t', 'a', 'r', 'g', 'e', 't']),
                match range_error {
                    Some(e) => Some(e@),
                    None => None,
                },
                weakens_balancing_loop,
                hops,
            ),
        },
{
    proof {
        assert("key"@ =~= seq!['k', 'e', 'y']) by {

            reveal_strlit("key");

        }
        assert("scope"@ =~= seq!['s', 'c', 'o', 'p', 'e']) by {

            reveal_strlit("scope");

        }
        assert("value"@ =~= seq!['v', 'a', 'l', 'u', 'e']) by {

            reveal_strlit("value");

        }
        assert("target"@ =~= seq!['t', 'a', 'r', 'g', 'e', 't']) by {

            reveal_strlit("target");

        }
    }
    match json_error(payload) {
        Some(e) => {
            let mut m: Vec<char> = vec!['p', 'a', 'y', 'l', 'o', 'a', 'd', ' ', 'd', 'e', ' ', 'p', 'a', 'r', 'a', 'm', 's', ' ', 'i', 'n', 'v', 'á', 'l', 'i', 'd', 'o', ':', ' '];
            append_chars(&mut m, &chars_of(e.as_str()));
            return ParamsVerdict::Rejected(string_of(&m));
        },
        None => {},
    }
    let key = match json_text(payload, "key") {
        Some(s) => s,
        None => string_of(&Vec::new()),
    };
    let scope = match json_text(payload, "scope") {
        Some(s) => s,
        None => string_of(&Vec::new()),
    };
    let value = match json_text(payload, "value") {
        Some(s) => s,
        None => string_of(&Vec::new()),
    };
    let target = json_text(payload, "target");
    let target_ref: Option<&str> = match &target {
        Some(t) => Some(t.as_str()),
        None => None,
    };
    params_verdict(intent, key.as_str(), scope.as_str(), value.as_str(), target_ref, range_error, weakens_balancing_loop, hops)
}

/// The `target` of an `effort.assign` payload (empty when absent or invalid): the name the roster
/// resolves before [`effort_from_payload`].
pub fn effort_target(payload: &str) -> (r: String)
    ensures
        r@ == text_or_empty(json_text_field(payload@, seq!['t', 'a', 'r', 'g', 'e', 't'])),
{
    proof {
        assert("target"@ =~= seq!['t', 'a', 'r', 'g', 'e', 't']) by {

            reveal_strlit("target");

        }
    }
    match json_text(payload, "target") {
        Some(s) => s,
        None => string_of(&Vec::new()),
    }
}

/// The effort verb from its raw payload: an invalid payload is refused with the parser's error;
/// otherwise [`effort_assignment_spec`] decides on the payload's `target` and `effort`, with
/// `resolved` the node the roster resolves that target to.
pub fn effort_from_payload(payload: &str, resolved: Option<NodeId>, sender: NodeId, hops: u8) -> (r: Result<EffortAssignment, String>)
    ensures
        match json_parse_error(payload@) {
            Some(e) => r matches Err(x) && x@ == seq!['p', 'a', 'y', 'l', 'o', 'a', 'd', ' ', 'd', 'e', ' ', 'e', 'f', 'f', 'o', 'r', 't', ' ', 'i', 'n', 'v', 'á', 'l', 'i', 'd', 'o', ':', ' '] + e,
            None => match effort_assignment_spec(
                text_or_empty(json_text_field(payload@, seq!['t', 'a', 'r', 'g', 'e', 't'])),
                resolved,
                sender,
                hops,
                json_text_field(payload@, seq!['e', 'f', 'f', 'o', 'r', 't']),
            ) {
                Ok(a) => r == Ok::<EffortAssignment, String>(a),
                Err(m) => r matches Err(x) && x@ == m,
            },
        },
{
    proof {
        assert("target"@ =~= seq!['t', 'a', 'r', 'g', 'e', 't']) by {

            reveal_strlit("target");

        }
        assert("effort"@ =~= seq!['e', 'f', 'f', 'o', 'r', 't']) by {

            reveal_strlit("effort");

        }
    }
    match json_error(payload) {
        Some(e) => {
            let mut m: Vec<char> = vec!['p', 'a', 'y', 'l', 'o', 'a', 'd', ' ', 'd', 'e', ' ', 'e', 'f', 'f', 'o', 'r', 't', ' ', 'i', 'n', 'v', 'á', 'l', 'i', 'd', 'o', ':', ' '];
            append_chars(&mut m, &chars_of(e.as_str()));
            return Err(string_of(&m));
        },
        None => {},
    }
    let target = effort_target(payload);
    let effort = json_text(payload, "effort");
    let effort_ref: Option<&str> = match &effort {
        Some(x) => Some(x.as_str()),
        None => None,
    };
    effort_assignment(target.as_str(), resolved, sender, hops, effort_ref)
}

/// A `plan.add` decoded from its payload (the acceptance criteria go to the plan's own model).
#[derive(Debug, Clone, PartialEq, Eq)]
pub struct PlanAddRequest {
    pub item: String,
    pub desc: String,
    pub goal_id: Option<String>,
    pub parents: Vec<String>,
    pub budget_tokens: u64,
    pub paths: Vec<String>,
}

/// `plan.add` from its raw payload: refused when its `item` is empty or absent (an invalid payload
/// reads as empty); otherwise its fields, absent texts empty, lists empty and budget 0.
pub fn plan_add_from_payload(payload: &str) -> (r: Result<PlanAddRequest, RouteOutcome>)
    ensures
        ({
            let item = text_or_empty(json_text_field(payload@, seq!['i', 't', 'e', 'm']));
            if item.len() == 0 {
                r matches Err(RouteOutcome::PlanRejected(m)) && m@ == seq!['p', 'l', 'a', 'n', '.', 'a', 'd', 'd', ' ', 'e', 'x', 'i', 'g', 'e', ' ', 'o', ' ', 'c', 'a', 'm', 'p', 'o', ' ', '\'', 'i', 't', 'e', 'm', '\'']
            } else {
                r matches Ok(q) && q.item@ == item && q.desc@ == text_or_empty(json_text_field(payload@, seq!['d', 'e', 's', 'c']))
                    && opt_view(q.goal_id) == json_text_field(payload@, seq!['g', 'o', 'a', 'l', '_', 'i', 'd']) && views(q.parents@)
                    == json_text_list(payload@, seq!['p', 'a', 'r', 'e', 'n', 't', 's']) && views(q.paths@) == json_text_list(payload@, seq!['p', 'a', 't', 'h', 's'])
                    && q.budget_tokens == match json_u64_field(payload@, seq!['b', 'u', 'd', 'g', 'e', 't', '_', 't', 'o', 'k', 'e', 'n', 's']) {
                    Some(b) => b,
                    None => 0,
                }
            }
        }),
{
    proof {
        assert("item"@ =~= seq!['i', 't', 'e', 'm']) by {

            reveal_strlit("item");

        }
        assert("desc"@ =~= seq!['d', 'e', 's', 'c']) by {

            reveal_strlit("desc");

        }
        assert("goal_id"@ =~= seq!['g', 'o', 'a', 'l', '_', 'i', 'd']) by {

            reveal_strlit("goal_id");

        }
        assert("parents"@ =~= seq!['p', 'a', 'r', 'e', 'n', 't', 's']) by {

            reveal_strlit("parents");

        }
        assert("paths"@ =~= seq!['p', 'a', 't', 'h', 's']) by {

            reveal_strlit("paths");

        }
        assert("budget_tokens"@ =~= seq!['b', 'u', 'd', 'g', 'e', 't', '_', 't', 'o', 'k', 'e', 'n', 's']) by {

            reveal_strlit("budget_tokens");

        }
    }
    let item = match json_text(payload, "item") {
        Some(s) => s,
        None => string_of(&Vec::new()),
    };
    match plan_add_refusal(item.as_str()) {
        Some(refusal) => return Err(refusal),
        None => {},
    }
    let desc = match json_text(payload, "desc") {
        Some(s) => s,
        None => string_of(&Vec::new()),
    };
    let budget = match json_u64(payload, "budget_tokens") {
        Some(b) => b,
        None => 0,
    };
    Ok(
        PlanAddRequest {
            item,
            desc,
            goal_id: json_text(payload, "goal_id"),
            parents: json_texts(payload, "parents"),
            budget_tokens: budget,
            paths: json_texts(payload, "paths"),
        },
    )
}

// ---------------------------------------------------------------------------------------------
// Effort assignment.

/// The text of a `str` in its debug rendering, between the quotes (std escapes it).
pub uninterp spec fn debug_escaped(s: Seq<char>) -> Seq<char>;

/// `s` holds only printable ASCII other than `"` and `\\`: std's debug rendering keeps it as is.
pub open spec fn plain_ascii(s: Seq<char>) -> bool {
    forall|i: int| 0 <= i < s.len() ==> ' ' <= #[trigger] s[i] <= '~' && s[i] != '"' && s[i] != '\\'
}

/// The debug rendering of an optional text: `None`, or `Some("…")` with the text escaped.
pub open spec fn option_text_debug(v: Option<Seq<char>>) -> Seq<char> {
    match v {
        None => seq!['N', 'o', 'n', 'e'],
        Some(s) => seq!['S', 'o', 'm', 'e', '(', '"'] + (if plain_ascii(s) {
            s
        } else {
            debug_escaped(s)
        }) + seq!['"', ')'],
    }
}

/// std's `Debug` of an `Option<&str>` (its `fmt`, through `format!`): claimed
/// to give `None`, or `Some(` and the text in double quotes, where printable ASCII other than `"`
/// and `\\` stands as is; how other characters are escaped is left unstated ([`debug_escaped`]).
#[verifier::external_body]
fn debug_option_text(v: Option<&str>) -> (r: String)
    ensures
        match v {
            None => r@ == seq!['N', 'o', 'n', 'e'],
            Some(s) => r@ == seq!['S', 'o', 'm', 'e', '(', '"'] + (if plain_ascii(s@) {
                s@
            } else {
                debug_escaped(s@)
            }) + seq!['"', ')'],
        },
{
    format!("{v:?}")
}

/// The effort a payload word names (`low`, `medium`, `high`).
pub open spec fn effort_word(w: Seq<char>) -> Option<Effort> {
    if w == seq!['l', 'o', 'w'] {
        Some(Effort::Low)
    } else if w == seq!['m', 'e', 'd', 'i', 'u', 'm'] {
        Some(Effort::Medium)
    } else if w == seq!['h', 'i', 'g', 'h'] {
        Some(Effort::High)
    } else {
        None
    }
}

/// An effort assignment that passed its checks: the node, the effort, and who assigned it
/// (`None` for the human at the origin, else the sending agent).
#[derive(Debug, Clone, Copy, PartialEq, Eq, Structural)]
pub struct EffortAssignment {
    pub node: NodeId,
    pub effort: Effort,
    pub by: Option<NodeId>,
}

/// The checks of `effort.assign` in order: a `target` is required; it must resolve to a live node
/// (`resolved`); an agent in cascade (`hops ≥ 1`) cannot assign an effort to itself; the effort
/// must be `low`, `medium` or `high`. `origin` is always an assignment and `by` follows the cascade,
/// never the payload.
pub open spec fn effort_assignment_spec(
    target: Seq<char>,
    resolved: Option<NodeId>,
    sender: NodeId,
    hops: u8,
    effort: Option<Seq<char>>,
) -> Result<EffortAssignment, Seq<char>> {
    if target.len() == 0 {
        Err(seq!['e', 'f', 'f', 'o', 'r', 't', '.', 'a', 's', 's', 'i', 'g', 'n', ' ', 'e', 'x', 'i', 'g', 'e', ' ', '\'', 't', 'a', 'r', 'g', 'e', 't', '\''])
    } else {
        match resolved {
            None => Err(seq!['t', 'e', 'r', 'm', 'i', 'n', 'a', 'l', ' ', 'd', 'e', 's', 'c', 'o', 'n', 'h', 'e', 'c', 'i', 'd', 'o', ':', ' '] + target),
            Some(node) => if hops >= 1 && node == sender {
                Err(seq!['a', 'u', 't', 'o', '-', 'a', 't', 'r', 'i', 'b', 'u', 'i', 'ç', 'ã', 'o', ' ', 'd', 'e', ' ', 'e', 'f', 'f', 'o', 'r', 't', ' ', 'e', 'x', 'i', 'g', 'e', ' ', 'M', 'a', 'e', 's', 't', 'r', 'o', '/', 'h', 'u', 'm', 'a', 'n', 'o'])
            } else {
                match effort {
                    Some(w) if effort_word(w) is Some => Ok(
                        EffortAssignment {
                            node,
                            effort: effort_word(w)->0,
                            by: if hops >= 1 {
                                Some(sender)
                            } else {
                                None
                            },
                        },
                    ),
                    _ => Err(seq!['e', 'f', 'f', 'o', 'r', 't', ' ', 'i', 'n', 'v', 'á', 'l', 'i', 'd', 'o', ' '] + option_text_debug(effort) + seq![':', ' ', 'u', 's', 'e', ' ', 'l', 'o', 'w', ',', ' ', 'm', 'e', 'd', 'i', 'u', 'm', ' ', 'o', 'u', ' ', 'h', 'i', 'g', 'h']),
                }
            },
        }
    }
}

fn effort_of_word(w: &str) -> (r: Option<Effort>)
    ensures
        r == effort_word(w@),
{
    let c = chars_of(w);
    if word_is(&c, vec!['l', 'o', 'w']) {
        Some(Effort::Low)
    } else if word_is(&c, vec!['m', 'e', 'd', 'i', 'u', 'm']) {
        Some(Effort::Medium)
    } else if word_is(&c, vec!['h', 'i', 'g', 'h']) {
        Some(Effort::High)
    } else {
        None
    }
}

/// Checks an `effort.assign` (see [`effort_assignment_spec`]): `target` and `effort` are the
/// payload's fields, `resolved` the node the roster resolves `target` to, and `hops` the depth
/// the sender's binding gives (never the payload's). The error is the refusal's reason.
pub fn effort_assignment(
    target: &str,
    resolved: Option<NodeId>,
    sender: NodeId,
    hops: u8,
    effort: Option<&str>,
) -> (r: Result<EffortAssignment, String>)
    ensures
        match effort_assignment_spec(
            target@,
            resolved,
            sender,
            hops,
            match effort {
                Some(s) => Some(s@),
                None => None,
            },
        ) {
            Ok(a) => r == Ok::<EffortAssignment, String>(a),
            Err(m) => r matches Err(x) && x@ == m,
        },
{
    let t = chars_of(target);
    if t.len() == 0 {
        return Err(string_of(&vec!['e', 'f', 'f', 'o', 'r', 't', '.', 'a', 's', 's', 'i', 'g', 'n', ' ', 'e', 'x', 'i', 'g', 'e', ' ', '\'', 't', 'a', 'r', 'g', 'e', 't', '\'']));
    }
    let node = match resolved {
        None => {
            let mut m: Vec<char> = vec!['t', 'e', 'r', 'm', 'i', 'n', 'a', 'l', ' ', 'd', 'e', 's', 'c', 'o', 'n', 'h', 'e', 'c', 'i', 'd', 'o', ':', ' '];
            append_chars(&mut m, &t);
            return Err(string_of(&m));
        },
        Some(n) => n,
    };
    if hops >= 1 && node == sender {
        return Err(string_of(&vec!['a', 'u', 't', 'o', '-', 'a', 't', 'r', 'i', 'b', 'u', 'i', 'ç', 'ã', 'o', ' ', 'd', 'e', ' ', 'e', 'f', 'f', 'o', 'r', 't', ' ', 'e', 'x', 'i', 'g', 'e', ' ', 'M', 'a', 'e', 's', 't', 'r', 'o', '/', 'h', 'u', 'm', 'a', 'n', 'o']));
    }
    let word = match effort {
        Some(w) => effort_of_word(w),
        None => None,
    };
    match word {
        Some(e) => Ok(
            EffortAssignment {
                node,
                effort: e,
                by: if hops >= 1 {
                    Some(sender)
                } else {
                    None
                },
            },
        ),
        None => {
            let mut m: Vec<char> = vec!['e', 'f', 'f', 'o', 'r', 't', ' ', 'i', 'n', 'v', 'á', 'l', 'i', 'd', 'o', ' '];
            let shown = debug_option_text(effort);
            append_chars(&mut m, &chars_of(shown.as_str()));
            append_chars(&mut m, &vec![':', ' ', 'u', 's', 'e', ' ', 'l', 'o', 'w', ',', ' ', 'm', 'e', 'd', 'i', 'u', 'm', ' ', 'o', 'u', ' ', 'h', 'i', 'g', 'h']);
            Err(string_of(&m))
        },
    }
}

// ---------------------------------------------------------------------------------------------
// Direct human gestures.

/// The goal intents a direct human gesture may carry (`goal.confirm`, `goal.interpret`).
pub open spec fn human_goal_intent(i: Seq<char>) -> bool {
    ||| i == seq!['g', 'o', 'a', 'l', '.', 'c', 'o', 'n', 'f', 'i', 'r', 'm']
    ||| i == seq!['g', 'o', 'a', 'l', '.', 'i', 'n', 't', 'e', 'r', 'p', 'r', 'e', 't']
}

/// The refusal text of an unsupported human gesture.
pub open spec fn human_intent_refusal(intent: Seq<char>) -> Seq<char> {
    seq![
        'g', 'e', 's', 't', 'o', ' ', 'h', 'u', 'm', 'a', 'n', 'o', ' ', 'd', 'i', 'r', 'e', 't',
        'o', ' ', 'n', 'a', 'o', ' ', 's', 'u', 'p', 'o', 'r', 't', 'a', ' ', 'o', ' ', 'i', 'n',
        't', 'e', 'n', 't', ' '
    ] + intent
}

impl Router {
    /// A DIRECT human gesture from the UI (confirm or adjust a goal from its card, with the raw
    /// payload): the channel authenticates, so the goal verb is stamped `by` = [`HUMAN_GESTURE`],
    /// never a client-chosen identity. Only `goal.confirm` / `goal.interpret` are legitimate
    /// gestures: anything else is refused with `GoalRejected`. Otherwise it is the goal verb of
    /// [`Router::goal_command`] from the human sentinel: its refusal, or the event to log and
    /// whether to assemble the team (always, for a confirmation).
    pub fn human_intent(&self, intent: &str, payload: &str) -> (r: Result<GoalCommand, RouteOutcome>)
        ensures
            human_goal_intent(intent@) ==> goal_command_holds(
                r,
                intent@,
                payload@,
                HUMAN_GESTURE,
                Seq::empty(),
                Seq::empty(),
                self@.config.autonomy,
            ),
            !human_goal_intent(intent@) ==> (r matches Err(RouteOutcome::GoalRejected(m)) && m@ == human_intent_refusal(intent@)),
    {
        let i = chars_of(intent);
        if word_is(&i, vec!['g', 'o', 'a', 'l', '.', 'c', 'o', 'n', 'f', 'i', 'r', 'm']) || word_is(
            &i,
            vec!['g', 'o', 'a', 'l', '.', 'i', 'n', 't', 'e', 'r', 'p', 'r', 'e', 't'],
        ) {
            proof {
                assert(""@ =~= Seq::<char>::empty()) by {
                    reveal_strlit("");
                }
            }
            return self.goal_command(intent, payload, HUMAN_GESTURE, "", "");
        }
        let mut m: Vec<char> = vec![
            'g', 'e', 's', 't', 'o', ' ', 'h', 'u', 'm', 'a', 'n', 'o', ' ', 'd', 'i', 'r', 'e', 't',
            'o', ' ', 'n', 'a', 'o', ' ', 's', 'u', 'p', 'o', 'r', 't', 'a', ' ', 'o', ' ', 'i', 'n',
            't', 'e', 'n', 't', ' '
        ];
        append_chars(&mut m, &i);
        Err(RouteOutcome::GoalRejected(string_of(&m)))
    }
}

// ---------------------------------------------------------------------------------------------
// The spawn gate.

/// `r` without a leading `role:`.
pub open spec fn strip_role(r: Seq<char>) -> Seq<char> {
    if r.len() >= 5 && r.take(5) == seq!['r', 'o', 'l', 'e', ':'] {
        r.skip(5)
    } else {
        r
    }
}

/// The `(name, role)` of a spawn request: the name is the trimmed `to`, the role the trimmed
/// `ref` without its `role:` prefix; `None` for a malformed request (empty name, a bare `@`, or
/// no role).
pub open spec fn spawn_args_spec(to: Seq<char>, ref_id: Option<Seq<char>>) -> Option<(Seq<char>, Seq<char>)> {
    let name = trim(to);
    let role = match ref_id {
        Some(r) => trim(strip_role(r)),
        None => Seq::empty(),
    };
    if name.len() == 0 || name == seq!['@'] || role.len() == 0 {
        None
    } else {
        Some((name, role))
    }
}

/// The name and role of a spawn request (`None`: malformed, refused before any log entry).
pub fn spawn_args(to: &str, ref_id: Option<&str>) -> (r: Option<(String, String)>)
    ensures
        match r {
            Some((n, ro)) => spawn_args_spec(to@, match ref_id {
                Some(x) => Some(x@),
                None => None,
            }) == Some((n@, ro@)),
            None => spawn_args_spec(to@, match ref_id {
                Some(x) => Some(x@),
                None => None,
            }) is None,
        },
{
    let name = trim_chars(&chars_of(to));
    let role: Vec<char> = match ref_id {
        Some(x) => {
            let rc = chars_of(x);
            let prefix: Vec<char> = vec!['r', 'o', 'l', 'e', ':'];
            if starts_with_chars(&rc, &prefix) {
                let mut rest: Vec<char> = Vec::new();
                let mut k: usize = 5;
                while k < rc.len()
                    invariant
                        5 <= k <= rc@.len(),
                        rest@ == rc@.subrange(5, k as int),
                    decreases rc.len() - k,
                {
                    rest.push(rc[k]);
                    k = k + 1;
                }
                proof {
                    assert(rc@.take(5) =~= prefix@);
                    assert(rest@ =~= rc@.skip(5));
                }
                trim_chars(&rest)
            } else {
                proof {
                    if rc@.len() >= 5 {
                        assert(rc@.take(5) != seq!['r', 'o', 'l', 'e', ':']) by {
                            if rc@.take(5) == seq!['r', 'o', 'l', 'e', ':'] {
                                assert(rc@.subrange(0, prefix@.len() as int) =~= prefix@);
                            }
                        }
                    }
                }
                trim_chars(&rc)
            }
        },
        None => Vec::new(),
    };
    proof {
        assert(role@ == match ref_id {
            Some(x) => trim(strip_role(x@)),
            None => Seq::<char>::empty(),
        });
    }
    if name.len() == 0 || (name.len() == 1 && name[0] == '@') || role.len() == 0 {
        proof {
            if name@.len() == 1 && name@[0] == '@' {
                assert(name@ =~= seq!['@']);
            }
        }
        return None;
    }
    proof {
        if name@ == seq!['@'] {
            assert(name@[0] == '@');
        }
    }
    Some((string_of(&name), string_of(&role)))
}

/// Why a spawn waits for a human.
#[derive(Debug, Clone, Copy, PartialEq, Eq, Structural)]
pub enum SpawnGateReason {
    /// A spawn of a spawned node (cascade): always gated.
    Cascade,
    /// The origin exceeded `max_spawns_per_turn`.
    OverCap,
    /// The workspace is paused by the cost ceiling.
    Cost,
}

/// The spawn gate's decision.
#[derive(Debug, Clone, Copy, PartialEq, Eq, Structural)]
pub enum SpawnGate {
    /// `manual` autonomy refuses the spawn.
    Blocked,
    /// A human must confirm.
    Gated { reason: SpawnGateReason },
    /// Approved: the app creates the node.
    Approved,
}

impl SpawnGate {
    /// The reason logged with `SpawnGated` (`manual`, `cascade`, `over_cap`, `cost`); `None`
    /// for an approval.
    pub fn reason_label(&self) -> (r: Option<String>)
        ensures
            match self {
                SpawnGate::Approved => r is None,
                SpawnGate::Blocked => r matches Some(l) && l@ == seq!['m', 'a', 'n', 'u', 'a', 'l'],
                SpawnGate::Gated { reason: SpawnGateReason::Cascade } => r matches Some(l) && l@ == seq![
                    'c', 'a', 's', 'c', 'a', 'd', 'e'
                ],
                SpawnGate::Gated { reason: SpawnGateReason::OverCap } => r matches Some(l) && l@ == seq![
                    'o', 'v', 'e', 'r', '_', 'c', 'a', 'p'
                ],
                SpawnGate::Gated { reason: SpawnGateReason::Cost } => r matches Some(l) && l@ == seq!['c', 'o', 's', 't'],
            },
    {
        let v: Vec<char> = match self {
            SpawnGate::Approved => {
                return None;
            },
            SpawnGate::Blocked => vec!['m', 'a', 'n', 'u', 'a', 'l'],
            SpawnGate::Gated { reason: SpawnGateReason::Cascade } => vec!['c', 'a', 's', 'c', 'a', 'd', 'e'],
            SpawnGate::Gated { reason: SpawnGateReason::OverCap } => vec!['o', 'v', 'e', 'r', '_', 'c', 'a', 'p'],
            SpawnGate::Gated { reason: SpawnGateReason::Cost } => vec!['c', 'o', 's', 't'],
        };
        Some(string_of(&v))
    }
}

/// The spawns already approved for `(root, sender)`.
pub open spec fn spawns_used(v: RouterView, root: Seq<char>, sender: NodeId) -> u32 {
    if v.budget.dom().contains((root, sender)) {
        v.budget[(root, sender)].spawn_count
    } else {
        0
    }
}

/// The spawn gate, in order: `manual` autonomy refuses; a cascade (`hops >= 1`) always asks a
/// human; an origin over the cap per `(root, sender)` asks; a cost-paused workspace asks;
/// otherwise the spawn is approved and counted (stamped `now`).
pub open spec fn spawn_gate_spec(v: RouterView, sender: NodeId, root: Seq<char>, hops: u8, cost_paused: bool, now: u64) -> (SpawnGate, RouterView) {
    let c = v.config;
    if c.autonomy == AutonomyLevel::Manual {
        (SpawnGate::Blocked, v)
    } else if hops >= 1 {
        (SpawnGate::Gated { reason: SpawnGateReason::Cascade }, v)
    } else if spawns_used(v, root, sender) >= c.max_spawns_per_turn {
        (SpawnGate::Gated { reason: SpawnGateReason::OverCap }, v)
    } else if c.token_budget_day > 0 && cost_paused {
        (SpawnGate::Gated { reason: SpawnGateReason::Cost }, v)
    } else {
        let e = if v.budget.dom().contains((root, sender)) {
            v.budget[(root, sender)]
        } else {
            BudgetEntry { count: 0, spawn_count: 0, last_ms: now }
        };
        (
            SpawnGate::Approved,
            RouterView {
                budget: v.budget.insert((root, sender), BudgetEntry { spawn_count: sat_inc(e.spawn_count), last_ms: now, ..e }),
                ..v
            },
        )
    }
}

impl Router {
    /// The unforgeable spawn gate for a spawn of `sender` whose effective chain is
    /// `(root, hops)` (from the binding, never from the message); `cost_paused` is the cost
    /// ledger's state. An approved spawn counts against `(root, sender)`.
    pub fn spawn_gate(&mut self, sender: NodeId, root: &str, hops: u8, cost_paused: bool, now_ms: u64) -> (r: SpawnGate)
        requires
            old(self).wf(),
        ensures
            final(self).wf(),
            (r, final(self)@) == spawn_gate_spec(old(self)@, sender, root@, hops, cost_paused, now_ms),
    {
        if self.config.autonomy.blocks_delegation() {
            return SpawnGate::Blocked;
        }
        if hops >= 1 {
            return SpawnGate::Gated { reason: SpawnGateReason::Cascade };
        }
        let key = (root.to_string(), sender);
        let e = match self.budget.get(&key) {
            Some(e) => *e,
            None => BudgetEntry { count: 0, spawn_count: 0, last_ms: now_ms },
        };
        let used = match self.budget.get(&key) {
            Some(x) => x.spawn_count,
            None => 0,
        };
        if used >= self.config.max_spawns_per_turn {
            return SpawnGate::Gated { reason: SpawnGateReason::OverCap };
        }
        if self.config.token_budget_day > 0 && cost_paused {
            return SpawnGate::Gated { reason: SpawnGateReason::Cost };
        }
        self.budget.insert(
            key,
            BudgetEntry { count: e.count, spawn_count: e.spawn_count.saturating_add(1), last_ms: now_ms },
        );
        SpawnGate::Approved
    }
}

// ---------------------------------------------------------------------------------------------
// The effort ladder of a goal's escalation.

/// The ladder rung of an iteration: one rung up per iteration, capped at the top (the first
/// failure is rung 0).
pub open spec fn ladder_index(len: nat, iteration: u32) -> nat {
    let m: nat = if (iteration as nat) < len {
        iteration as nat
    } else {
        len
    };
    if m == 0 {
        0
    } else {
        (m - 1) as nat
    }
}

/// The effort of the re-spawn after a failure at `iteration`, and whether it is a NEW developer
/// (the rung went up since the previous iteration) rather than a re-dispatch to the same one.
/// `None` when the ladder is empty (nothing to escalate).
pub fn ladder_step(ladder: &Vec<Effort>, iteration: u32) -> (r: Option<(Effort, bool)>)
    ensures
        ladder@.len() == 0 ==> r is None,
        ladder@.len() > 0 ==> r == Some(
            (
                ladder@[ladder_index(ladder@.len(), iteration) as int],
                ladder_index(ladder@.len(), iteration) > ladder_index(
                    ladder@.len(),
                    if iteration == 0 {
                        0
                    } else {
                        (iteration - 1) as u32
                    },
                ),
            ),
        ),
{
    if ladder.len() == 0 {
        return None;
    }
    let len = ladder.len();
    let m = if (iteration as usize) < len {
        iteration as usize
    } else {
        len
    };
    let rung = if m == 0 {
        0
    } else {
        m - 1
    };
    let prev_it = iteration.saturating_sub(1);
    let pm = if (prev_it as usize) < len {
        prev_it as usize
    } else {
        len
    };
    let prev_rung = if pm == 0 {
        0
    } else {
        pm - 1
    };
    Some((ladder[rung], rung > prev_rung))
}

/// The id prefix of the re-dispatches of `(goal, item)` to the same developer.
pub open spec fn respawn_prefix(goal: Seq<char>, item: Seq<char>) -> Seq<char> {
    seq!['g', 'o', 'a', 'l', '-', 'r', 'e', 's', 'p', 'a', 'w', 'n', ':'] + goal + seq![':'] + item + seq![':']
}

/// The id prefix of the new developers requested for `(goal, item)`.
pub open spec fn newdev_prefix(goal: Seq<char>, item: Seq<char>) -> Seq<char> {
    seq!['g', 'o', 'a', 'l', '-', 'n', 'e', 'w', 'd', 'e', 'v', ':'] + goal + seq![':'] + item + seq![':']
}

/// The event is an escalation re-spawn of `(goal, item)` (re-dispatch or new developer) that
/// carries `effort`; the initial team assembly does not count.
pub open spec fn respawn_of(e: LogEvent, goal: Seq<char>, item: Seq<char>, effort: Effort) -> bool {
    match e {
        LogEvent::SpawnRequested { id, effort: eff, .. } => (starts_with(id@, respawn_prefix(goal, item))
            || starts_with(id@, newdev_prefix(goal, item))) && eff == Some(effort),
        _ => false,
    }
}

/// How many escalation re-spawns of `(goal, item)` with `effort` the log holds.
pub open spec fn respawn_count(recs: Seq<LogRecord>, goal: Seq<char>, item: Seq<char>, effort: Effort) -> nat
    decreases recs.len(),
{
    if recs.len() == 0 {
        0
    } else {
        respawn_count(recs.drop_last(), goal, item, effort) + if respawn_of(recs.last().event, goal, item, effort) {
            1nat
        } else {
            0nat
        }
    }
}

fn respawn_prefixes(goal_id: &str, item: &str) -> (r: (Vec<char>, Vec<char>))
    ensures
        r.0@ == respawn_prefix(goal_id@, item@),
        r.1@ == newdev_prefix(goal_id@, item@),
{
    let g = chars_of(goal_id);
    let it = chars_of(item);
    let mut respawn: Vec<char> = vec!['g', 'o', 'a', 'l', '-', 'r', 'e', 's', 'p', 'a', 'w', 'n', ':'];
    append_chars(&mut respawn, &g);
    respawn.push(':');
    append_chars(&mut respawn, &it);
    respawn.push(':');
    let mut newdev: Vec<char> = vec!['g', 'o', 'a', 'l', '-', 'n', 'e', 'w', 'd', 'e', 'v', ':'];
    append_chars(&mut newdev, &g);
    newdev.push(':');
    append_chars(&mut newdev, &it);
    newdev.push(':');
    assert(respawn@ =~= respawn_prefix(goal_id@, item@));
    assert(newdev@ =~= newdev_prefix(goal_id@, item@));
    (respawn, newdev)
}

/// How many escalation re-spawns (`goal-respawn:{goal}:{item}:…` or `goal-newdev:{goal}:{item}:…`)
/// with this `effort` were already requested: the guard against an identical re-spawn.
pub fn count_respawns_with_effort(records: &[LogRecord], goal_id: &str, item: &str, effort: Effort) -> (r: u32)
    ensures
        r == (if respawn_count(records@, goal_id@, item@, effort) > u32::MAX as nat {
            u32::MAX as nat
        } else {
            respawn_count(records@, goal_id@, item@, effort)
        }),
{
    let (respawn, newdev) = respawn_prefixes(goal_id, item);
    let mut n: u32 = 0;
    let mut i: usize = 0;
    while i < records.len()
        invariant
            i <= records@.len(),
            respawn@ == respawn_prefix(goal_id@, item@),
            newdev@ == newdev_prefix(goal_id@, item@),
            n == (if respawn_count(records@.take(i as int), goal_id@, item@, effort) > u32::MAX as nat {
                u32::MAX as nat
            } else {
                respawn_count(records@.take(i as int), goal_id@, item@, effort)
            }),
        decreases records.len() - i,
    {
        assert(records@.take(i + 1).drop_last() =~= records@.take(i as int));
        match &records[i].event {
            LogEvent::SpawnRequested { id, effort: Some(e), .. } => {
                let idc = chars_of(id.as_str());
                if *e == effort && (starts_with_chars(&idc, &respawn) || starts_with_chars(&idc, &newdev)) {
                    n = n.saturating_add(1);
                }
            },
            _ => {},
        }
        i = i + 1;
    }
    assert(records@.take(records@.len() as int) =~= records@);
    n
}

/// The escalation a `Fail` at `iteration` asks for: a re-spawn with the effort of the ladder's
/// rung, to a NEW developer when the rung went up since the previous iteration (else to the same
/// one).
pub struct Escalation {
    /// The request id: `goal-newdev:{goal}:{item}:{rung}` or `goal-respawn:{goal}:{item}:{iteration}`.
    pub id: String,
    /// The terminal's name: `{target}#reforco{rung}` for a new developer, else the target's own.
    pub name: String,
    pub effort: Effort,
    pub new_dev: bool,
}

/// The previous iteration (saturating at 0).
pub open spec fn prev_iteration(iteration: u32) -> u32 {
    if iteration == 0 {
        0
    } else {
        (iteration - 1) as u32
    }
}

/// The escalation after a `Fail` at `iteration` as `(id, name, effort, new_dev)`: none with an empty
/// ladder, and none when an escalation re-spawn of the item with that effort was already
/// requested (an identical re-spawn would not help: the turn budget or a human decides).
pub open spec fn escalation_spec(
    ladder: Seq<Effort>,
    recs: Seq<LogRecord>,
    goal: Seq<char>,
    item: Seq<char>,
    target_name: Seq<char>,
    iteration: u32,
) -> Option<(Seq<char>, Seq<char>, Effort, bool)> {
    if ladder.len() == 0 {
        None
    } else {
        let rung = ladder_index(ladder.len(), iteration);
        let effort = ladder[rung as int];
        let new_dev = rung > ladder_index(ladder.len(), prev_iteration(iteration));
        if respawn_count(recs, goal, item, effort) >= 1 {
            None
        } else if new_dev {
            Some((
                newdev_prefix(goal, item) + decimal(rung),
                target_name + seq!['#', 'r', 'e', 'f', 'o', 'r', 'c', 'o'] + decimal(rung),
                effort,
                true,
            ))
        } else {
            Some((respawn_prefix(goal, item) + decimal(iteration as nat), target_name, effort, false))
        }
    }
}

/// The escalation after a `Fail` at `iteration` of `item` of goal `goal_id`, whose developer is
/// called `target_name` (see [`escalation_spec`]).
pub fn escalation(
    ladder: &Vec<Effort>,
    records: &[LogRecord],
    goal_id: &str,
    item: &str,
    target_name: &str,
    iteration: u32,
) -> (r: Option<Escalation>)
    ensures
        match escalation_spec(ladder@, records@, goal_id@, item@, target_name@, iteration) {
            None => r is None,
            Some((id, name, effort, new_dev)) => r matches Some(e) && e.id@ == id && e.name@ == name
                && e.effort == effort && e.new_dev == new_dev,
        },
{
    let (effort, new_dev) = match ladder_step(ladder, iteration) {
        None => return None,
        Some(s) => s,
    };
    let ghost rung = ladder_index(ladder@.len(), iteration);
    if count_respawns_with_effort(records, goal_id, item, effort) >= 1 {
        return None;
    }
    let (respawn, newdev) = respawn_prefixes(goal_id, item);
    let len = ladder.len();
    let m = if (iteration as usize) < len {
        iteration as usize
    } else {
        len
    };
    let r = if m == 0 {
        0
    } else {
        m - 1
    };
    assert(r == rung);
    if new_dev {
        let mut id = newdev;
        push_decimal(&mut id, r as u64);
        let mut name = chars_of(target_name);
        append_chars(&mut name, &vec!['#', 'r', 'e', 'f', 'o', 'r', 'c', 'o']);
        push_decimal(&mut name, r as u64);
        proof {
            assert(name@ =~= target_name@ + seq!['#', 'r', 'e', 'f', 'o', 'r', 'c', 'o'] + decimal(rung));
        }
        Some(Escalation { id: string_of(&id), name: string_of(&name), effort, new_dev: true })
    } else {
        let mut id = respawn;
        push_decimal(&mut id, iteration as u64);
        Some(Escalation { id: string_of(&id), name: target_name.to_string(), effort, new_dev: false })
    }
}

// ---------------------------------------------------------------------------------------------
// Auto-integration idempotence.

/// The sequence number of the last `CodeChanged`.
pub open spec fn last_code_change(recs: Seq<LogRecord>) -> Option<u64>
    decreases recs.len(),
{
    if recs.len() == 0 {
        None
    } else if recs.last().event is CodeChanged {
        Some(recs.last().seq)
    } else {
        last_code_change(recs.drop_last())
    }
}

/// The sequence number of the last `SpawnRequested` of `role`.
pub open spec fn last_spawn_of(recs: Seq<LogRecord>, role: Seq<char>) -> Option<u64>
    decreases recs.len(),
{
    if recs.len() == 0 {
        None
    } else {
        match recs.last().event {
            LogEvent::SpawnRequested { role: r, .. } => {
                if r@ == role {
                    Some(recs.last().seq)
                } else {
                    last_spawn_of(recs.drop_last(), role)
                }
            },
            _ => last_spawn_of(recs.drop_last(), role),
        }
    }
}

/// An integrator request is still in flight: one was requested after the last code change (or
/// with no code change logged at all); a later `CodeChanged` re-arms the trigger.
pub open spec fn integrator_in_flight(recs: Seq<LogRecord>, role: Seq<char>) -> bool {
    match (last_spawn_of(recs, role), last_code_change(recs)) {
        (Some(req), Some(code)) => req > code,
        (Some(_), None) => true,
        (None, _) => false,
    }
}

/// `true` if an integrator (`SpawnRequested` of `integrator_role`) was requested after the last
/// `CodeChanged`: the auto-integration must not fire again until new work arrives.
pub fn integrator_request_in_flight(records: &[LogRecord], integrator_role: &str) -> (r: bool)
    ensures
        r == integrator_in_flight(records@, integrator_role@),
{
    let role = chars_of(integrator_role);
    let mut last_code: Option<u64> = None;
    let mut last_req: Option<u64> = None;
    let mut i: usize = 0;
    while i < records.len()
        invariant
            i <= records@.len(),
            role@ == integrator_role@,
            last_code == last_code_change(records@.take(i as int)),
            last_req == last_spawn_of(records@.take(i as int), integrator_role@),
        decreases records.len() - i,
    {
        assert(records@.take(i + 1).drop_last() =~= records@.take(i as int));
        match &records[i].event {
            LogEvent::CodeChanged => {
                last_code = Some(records[i].seq);
            },
            LogEvent::SpawnRequested { role: r, .. } => {
                if chars_equal(&chars_of(r.as_str()), &role) {
                    last_req = Some(records[i].seq);
                }
            },
            _ => {},
        }
        i = i + 1;
    }
    assert(records@.take(records@.len() as int) =~= records@);
    match (last_req, last_code) {
        (Some(req), Some(code)) => req > code,
        (Some(_), None) => true,
        (None, _) => false,
    }
}

// ---------------------------------------------------------------------------------------------
// The goal's outer loop, read from the log.

/// How many `Fail` verdicts `(goal, item)` received.
pub open spec fn fail_count(recs: Seq<LogRecord>, goal: Seq<char>, item: Seq<char>) -> nat
    decreases recs.len(),
{
    if recs.len() == 0 {
        0
    } else {
        fail_count(recs.drop_last(), goal, item) + match recs.last().event {
            LogEvent::ReviewVerdict { goal_id, plan_item, verdict, .. } => if goal_id@ == goal && plan_item@ == item
                && verdict == ReviewOutcome::Fail {
                1nat
            } else {
                0nat
            },
            _ => 0nat,
        }
    }
}

/// The last verdict of `(goal, item)`, if any.
pub open spec fn last_verdict(recs: Seq<LogRecord>, goal: Seq<char>, item: Seq<char>) -> Option<ReviewOutcome>
    decreases recs.len(),
{
    if recs.len() == 0 {
        None
    } else {
        match recs.last().event {
            LogEvent::ReviewVerdict { goal_id, plan_item, verdict, .. } => if goal_id@ == goal && plan_item@ == item {
                Some(verdict)
            } else {
                last_verdict(recs.drop_last(), goal, item)
            },
            _ => last_verdict(recs.drop_last(), goal, item),
        }
    }
}

/// The highest iteration among the verdicts of `goal` (0 when none), capped at `u32::MAX`.
pub open spec fn max_iteration(recs: Seq<LogRecord>, goal: Seq<char>) -> u32
    decreases recs.len(),
{
    if recs.len() == 0 {
        0
    } else {
        let m = max_iteration(recs.drop_last(), goal);
        match recs.last().event {
            LogEvent::ReviewVerdict { goal_id, iteration, .. } => if goal_id@ == goal {
                let it: u32 = if iteration > u32::MAX as u64 {
                    u32::MAX
                } else {
                    iteration as u32
                };
                if it > m {
                    it
                } else {
                    m
                }
            } else {
                m
            },
            _ => m,
        }
    }
}

/// The team proposed by the LAST interpretation of `goal` (empty when none).
pub open spec fn team_of(recs: Seq<LogRecord>, goal: Seq<char>) -> Seq<Seq<char>>
    decreases recs.len(),
{
    if recs.len() == 0 {
        Seq::empty()
    } else {
        match recs.last().event {
            LogEvent::GoalInterpreted { goal_id, proposed_team } => if goal_id@ == goal {
                views(proposed_team@)
            } else {
                team_of(recs.drop_last(), goal)
            },
            _ => team_of(recs.drop_last(), goal),
        }
    }
}

/// The event is a `SpawnRequested` with this id.
pub open spec fn is_spawn_of(e: LogEvent, id: Seq<char>) -> bool {
    match e {
        LogEvent::SpawnRequested { id: x, .. } => x@ == id,
        _ => false,
    }
}

/// A `SpawnRequested` with this id was logged.
pub open spec fn spawn_logged(recs: Seq<LogRecord>, id: Seq<char>) -> bool {
    exists|i: int| 0 <= i < recs.len() && is_spawn_of(#[trigger] recs[i].event, id)
}

/// The number of `Fail` verdicts already logged for `(goal_id, item)`: the failed rounds before
/// the current one (capped at `u32::MAX`).
pub fn count_item_fails(records: &[LogRecord], goal_id: &str, item: &str) -> (r: u32)
    ensures
        r == (if fail_count(records@, goal_id@, item@) > u32::MAX as nat {
            u32::MAX as nat
        } else {
            fail_count(records@, goal_id@, item@)
        }),
{
    let g = chars_of(goal_id);
    let it = chars_of(item);
    let mut n: u32 = 0;
    let mut i: usize = 0;
    while i < records.len()
        invariant
            i <= records@.len(),
            g@ == goal_id@,
            it@ == item@,
            n == (if fail_count(records@.take(i as int), goal_id@, item@) > u32::MAX as nat {
                u32::MAX as nat
            } else {
                fail_count(records@.take(i as int), goal_id@, item@)
            }),
        decreases records.len() - i,
    {
        assert(records@.take(i + 1).drop_last() =~= records@.take(i as int));
        match &records[i].event {
            LogEvent::ReviewVerdict { goal_id: gi, plan_item, verdict, .. } => {
                let is_fail = match verdict {
                    ReviewOutcome::Fail => true,
                    _ => false,
                };
                if is_fail && chars_equal(&chars_of(gi.as_str()), &g) && chars_equal(&chars_of(plan_item.as_str()), &it) {
                    n = n.saturating_add(1);
                }
            },
            _ => {},
        }
        i = i + 1;
    }
    assert(records@.take(records@.len() as int) =~= records@);
    n
}

fn last_verdict_of(records: &[LogRecord], goal: &Vec<char>, item: &Vec<char>) -> (r: Option<ReviewOutcome>)
    ensures
        r == last_verdict(records@, goal@, item@),
{
    let mut last: Option<ReviewOutcome> = None;
    let mut i: usize = 0;
    while i < records.len()
        invariant
            i <= records@.len(),
            last == last_verdict(records@.take(i as int), goal@, item@),
        decreases records.len() - i,
    {
        assert(records@.take(i + 1).drop_last() =~= records@.take(i as int));
        match &records[i].event {
            LogEvent::ReviewVerdict { goal_id: gi, plan_item, verdict, .. } => {
                if chars_equal(&chars_of(gi.as_str()), goal) && chars_equal(&chars_of(plan_item.as_str()), item) {
                    last = Some(*verdict);
                }
            },
            _ => {},
        }
        i = i + 1;
    }
    assert(records@.take(records@.len() as int) =~= records@);
    last
}

/// `true` if EVERY item of the goal (`items`, from the plan) has `Pass` as its most recent outcome: the
/// outer loop may close. A goal without items has nothing to close (`false`).
pub fn all_items_pass(records: &[LogRecord], items: &[String], goal_id: &str) -> (r: bool)
    ensures
        r == (items@.len() > 0 && forall|k: int| 0 <= k < items@.len() ==> last_verdict(records@, goal_id@, #[trigger] items@[k]@)
            == Some(ReviewOutcome::Pass)),
{
    if items.len() == 0 {
        return false;
    }
    let g = chars_of(goal_id);
    let mut k: usize = 0;
    while k < items.len()
        invariant
            k <= items@.len(),
            g@ == goal_id@,
            forall|j: int| 0 <= j < k ==> last_verdict(records@, goal_id@, #[trigger] items@[j]@) == Some(ReviewOutcome::Pass),
        decreases items.len() - k,
    {
        let v = last_verdict_of(records, &g, &chars_of(items[k].as_str()));
        match v {
            Some(ReviewOutcome::Pass) => {},
            _ => {
                return false;
            },
        }
        k = k + 1;
    }
    true
}

/// The highest iteration among the verdicts of the goal: the rounds of its outer loop.
pub fn max_goal_iteration(records: &[LogRecord], goal_id: &str) -> (r: u32)
    ensures
        r == max_iteration(records@, goal_id@),
{
    let g = chars_of(goal_id);
    let mut m: u32 = 0;
    let mut i: usize = 0;
    while i < records.len()
        invariant
            i <= records@.len(),
            g@ == goal_id@,
            m == max_iteration(records@.take(i as int), goal_id@),
        decreases records.len() - i,
    {
        assert(records@.take(i + 1).drop_last() =~= records@.take(i as int));
        match &records[i].event {
            LogEvent::ReviewVerdict { goal_id: gi, iteration, .. } => {
                if chars_equal(&chars_of(gi.as_str()), &g) {
                    let it: u32 = if *iteration > 0xffff_ffff {
                        u32::MAX
                    } else {
                        *iteration as u32
                    };
                    if it > m {
                        m = it;
                    }
                }
            },
            _ => {},
        }
        i = i + 1;
    }
    assert(records@.take(records@.len() as int) =~= records@);
    m
}

/// The team proposed by the LAST interpretation of the goal (a re-interpretation corrects it).
pub fn proposed_team_of(records: &[LogRecord], goal_id: &str) -> (r: Vec<String>)
    ensures
        views(r@) == team_of(records@, goal_id@),
{
    let g = chars_of(goal_id);
    let mut team: Vec<String> = Vec::new();
    let mut i: usize = 0;
    while i < records.len()
        invariant
            i <= records@.len(),
            g@ == goal_id@,
            views(team@) == team_of(records@.take(i as int), goal_id@),
        decreases records.len() - i,
    {
        assert(records@.take(i + 1).drop_last() =~= records@.take(i as int));
        match &records[i].event {
            LogEvent::GoalInterpreted { goal_id: gi, proposed_team } => {
                if chars_equal(&chars_of(gi.as_str()), &g) {
                    team = clone_strings(proposed_team);
                }
            },
            _ => {},
        }
        i = i + 1;
    }
    assert(records@.take(records@.len() as int) =~= records@);
    team
}

fn clone_strings(v: &Vec<String>) -> (r: Vec<String>)
    ensures
        views(r@) == views(v@),
{
    let mut r: Vec<String> = Vec::new();
    let mut i: usize = 0;
    while i < v.len()
        invariant
            i <= v@.len(),
            views(r@) == views(v@).take(i as int),
        decreases v.len() - i,
    {
        let ghost before = r@;
        let c = v[i].clone();
        r.push(c);
        assert(r@ =~= before.push(c));
        assert(views(r@) =~= views(before).push(v@[i as int]@));
        assert(views(v@).take(i + 1) =~= views(v@).take(i as int).push(v@[i as int]@));
        i = i + 1;
    }
    assert(views(v@).take(v@.len() as int) =~= views(v@));
    r
}

/// What the goal's outer loop does after the verdict on one of its items.
#[derive(Debug, Clone, Copy, PartialEq, Eq, Structural)]
pub enum GoalAdvance {
    /// A pass, and every item of the goal now passes: the goal is achieved, after this many
    /// iterations.
    Achieved { iterations: u32 },
    /// A pass, but some item does not pass yet: nothing more to do.
    Wait,
    /// A failure at or past the turn budget: the goal escalates to a human (a resumable pause,
    /// never one more turn).
    BudgetExhausted,
    /// A failure under the turn budget: escalate the effort and dispatch again.
    Escalate,
}

/// The outer loop's step (see [`GoalAdvance`]); `recs` already hold the new verdict.
pub open spec fn goal_advance_spec(
    recs: Seq<LogRecord>,
    items: Seq<Seq<char>>,
    goal: Seq<char>,
    passed: bool,
    iteration: u32,
    max_iterations: u32,
) -> GoalAdvance {
    if passed {
        if items.len() > 0 && forall|k: int| 0 <= k < items.len() ==> last_verdict(recs, goal, #[trigger] items[k])
            == Some(ReviewOutcome::Pass) {
            GoalAdvance::Achieved { iterations: max_iteration(recs, goal) }
        } else {
            GoalAdvance::Wait
        }
    } else if iteration >= max_iterations {
        GoalAdvance::BudgetExhausted
    } else {
        GoalAdvance::Escalate
    }
}

/// The outer loop's step after the verdict (`passed`) on an item at `iteration` (its failures
/// before this attempt, plus one), given the goal's items and the log with the new verdict.
pub fn goal_advance(
    records: &[LogRecord],
    items: &[String],
    goal_id: &str,
    passed: bool,
    iteration: u32,
    max_iterations: u32,
) -> (r: GoalAdvance)
    ensures
        r == goal_advance_spec(records@, views(items@), goal_id@, passed, iteration, max_iterations),
{
    let ghost vs = views(items@);
    proof {
        assert(vs.len() == items@.len());
        assert forall|k: int| 0 <= k < items@.len() implies #[trigger] vs[k] == items@[k]@ by {}
        if forall|k: int| 0 <= k < vs.len() ==> last_verdict(records@, goal_id@, #[trigger] vs[k]) == Some(
            ReviewOutcome::Pass,
        ) {
            assert forall|k: int| 0 <= k < items@.len() implies last_verdict(records@, goal_id@, #[trigger] items@[k]@)
                == Some(ReviewOutcome::Pass) by {
                assert(vs[k] == items@[k]@);
            }
        }
        if forall|k: int| 0 <= k < items@.len() ==> last_verdict(records@, goal_id@, #[trigger] items@[k]@) == Some(
            ReviewOutcome::Pass,
        ) {
            assert forall|k: int| 0 <= k < vs.len() implies last_verdict(records@, goal_id@, #[trigger] vs[k]) == Some(
                ReviewOutcome::Pass,
            ) by {
                assert(vs[k] == items@[k]@);
            }
        }
    }
    if passed {
        if all_items_pass(records, items, goal_id) {
            GoalAdvance::Achieved { iterations: max_goal_iteration(records, goal_id) }
        } else {
            GoalAdvance::Wait
        }
    } else if iteration >= max_iterations {
        GoalAdvance::BudgetExhausted
    } else {
        GoalAdvance::Escalate
    }
}

/// `true` if a `SpawnRequested` with this id is already in the log (the team assembly is
/// idempotent: a re-confirmation does not duplicate a role's spawn).
pub fn spawn_id_exists(records: &[LogRecord], id: &str) -> (r: bool)
    ensures
        r == spawn_logged(records@, id@),
{
    let want = chars_of(id);
    let mut i: usize = 0;
    while i < records.len()
        invariant
            i <= records@.len(),
            want@ == id@,
            forall|j: int| 0 <= j < i ==> !is_spawn_of(#[trigger] records@[j].event, id@),
        decreases records.len() - i,
    {
        match &records[i].event {
            LogEvent::SpawnRequested { id: x, .. } => {
                if chars_equal(&chars_of(x.as_str()), &want) {
                    assert(is_spawn_of(records@[i as int].event, id@));
                    return true;
                }
            },
            _ => {},
        }
        i = i + 1;
    }
    false
}

/// The deterministic id of the spawn of `role` in the team of `goal`.
pub open spec fn team_spawn_id(goal: Seq<char>, role: Seq<char>) -> Seq<char> {
    seq!['g', 'o', 'a', 'l', '-', 't', 'e', 'a', 'm', ':'] + goal + seq![':'] + role
}

/// The `(id, role)` spawns the team assembly still owes, in team order: one per proposed role
/// whose id is neither logged already nor owed by an earlier entry.
pub open spec fn owed_spawns(recs: Seq<LogRecord>, goal: Seq<char>, team: Seq<Seq<char>>) -> Seq<(Seq<char>, Seq<char>)>
    decreases team.len(),
{
    if team.len() == 0 {
        Seq::empty()
    } else {
        let o = owed_spawns(recs, goal, team.drop_last());
        let role = team.last();
        let id = team_spawn_id(goal, role);
        if spawn_logged(recs, id) || o.contains((id, role)) {
            o
        } else {
            o.push((id, role))
        }
    }
}

/// The pairs of views of `(id, role)` string pairs.
pub open spec fn pair_views(v: Seq<(String, String)>) -> Seq<(Seq<char>, Seq<char>)> {
    v.map_values(|p: (String, String)| (p.0@, p.1@))
}

/// The spawns that assembling the team of a confirmed goal requests: one per role proposed by
/// the LAST interpretation, with the deterministic id `goal-team:{goal}:{role}`, skipping those
/// already requested (a re-confirmation never duplicates a role).
pub fn team_spawns(records: &[LogRecord], goal_id: &str) -> (r: Vec<(String, String)>)
    ensures
        pair_views(r@) == owed_spawns(records@, goal_id@, team_of(records@, goal_id@)),
{
    let team = proposed_team_of(records, goal_id);
    let ghost tv = views(team@);
    let g = chars_of(goal_id);
    let mut out: Vec<(String, String)> = Vec::new();
    let mut k: usize = 0;
    while k < team.len()
        invariant
            k <= team@.len(),
            tv == views(team@),
            tv == team_of(records@, goal_id@),
            g@ == goal_id@,
            pair_views(out@) == owed_spawns(records@, goal_id@, tv.take(k as int)),
        decreases team.len() - k,
    {
        assert(tv.take(k + 1).drop_last() =~= tv.take(k as int));
        let role = team[k].clone();
        let mut idc: Vec<char> = vec!['g', 'o', 'a', 'l', '-', 't', 'e', 'a', 'm', ':'];
        append_chars(&mut idc, &g);
        idc.push(':');
        append_chars(&mut idc, &chars_of(role.as_str()));
        assert(idc@ =~= team_spawn_id(goal_id@, role@));
        assert(tv.take(k + 1).last() == role@);
        let id = string_of(&idc);
        let mut dup = false;
        let mut j: usize = 0;
        while j < out.len()
            invariant
                j <= out@.len(),
                idc@ == id@,
                dup == exists|m: int| 0 <= m < j && #[trigger] pair_views(out@)[m] == (id@, role@),
            decreases out.len() - j,
        {
            if chars_equal(&chars_of(out[j].0.as_str()), &idc) && chars_equal(
                &chars_of(out[j].1.as_str()),
                &chars_of(role.as_str()),
            ) {
                dup = true;
                assert(pair_views(out@)[j as int] == (id@, role@));
            } else {
                assert(pair_views(out@)[j as int] != (id@, role@));
            }
            j = j + 1;
        }
        proof {
            assert(dup == pair_views(out@).contains((id@, role@)));
        }
        if !dup && !spawn_id_exists(records, id.as_str()) {
            let ghost before = out@;
            out.push((id, role));
            assert(pair_views(out@) =~= pair_views(before).push((idc@, team@[k as int]@)));
        }
        k = k + 1;
    }
    assert(tv.take(team@.len() as int) =~= tv);
    out
}

/// An outcome on an item is recorded only when the judging node differs from the judged one
/// (self-assessment is refused).
pub fn review_verdict_allowed(reviewer: NodeId, target: NodeId) -> (r: bool)
    ensures
        r == (reviewer != target),
{
    reviewer != target
}

// ---------------------------------------------------------------------------------------------
// The watch over swallowed dispatches.

/// The node whose progress an event attests: tokens consumed, a delegation sent on, new PTY
/// output, or its death/exit. `None` for events that say nothing of progress.
pub open spec fn progress_node(e: LogEvent) -> Option<NodeId> {
    match e {
        LogEvent::TokenUsageReported { node, .. } => node,
        LogEvent::MessageRouted { from, .. } => from,
        LogEvent::NodeExited { node } => node,
        LogEvent::NodeStatusChanged { node, busy_output, dead, .. } => if busy_output || dead {
            node
        } else {
            None
        },
        _ => None,
    }
}

/// The watch after scanning `recs`: a progress event of a watched node disarms it, but only if
/// it came AFTER the delivery that armed it (`seq > arm_seq`).
pub open spec fn disarmed(d: Map<NodeId, (u64, u64)>, recs: Seq<LogRecord>) -> Map<NodeId, (u64, u64)>
    decreases recs.len(),
{
    if recs.len() == 0 {
        d
    } else {
        let d0 = disarmed(d, recs.drop_last());
        let r = recs.last();
        match progress_node(r.event) {
            Some(n) => if d0.dom().contains(n) && r.seq > d0[n].1 {
                d0.remove(n)
            } else {
                d0
            },
            None => d0,
        }
    }
}

/// What the swallowed-dispatch protocol does with a swallowed node.
#[derive(Debug, Clone, Copy, PartialEq, Eq, Structural)]
pub enum StallStep {
    /// Nothing: the breaker is already open, the node owns no goal item, or this delivery was
    /// already re-dispatched (waiting for it).
    Skip,
    /// First attempt: re-dispatch, informed, to the same developer.
    Redispatch,
    /// The re-dispatch was swallowed too: open the (sticky) breaker and escalate to the human.
    Escalate,
}

/// The protocol's step for a swallowed node.
pub open spec fn stall_step_spec(breaker_open: bool, has_goal_item: bool, epoch_redispatched: bool, none_since_reset: bool) -> StallStep {
    if breaker_open || !has_goal_item || epoch_redispatched {
        StallStep::Skip
    } else if none_since_reset {
        StallStep::Redispatch
    } else {
        StallStep::Escalate
    }
}

/// The sequence of the last human breaker reset of `node` (0 when none).
pub open spec fn last_reset_seq(recs: Seq<LogRecord>, node: NodeId) -> u64
    decreases recs.len(),
{
    if recs.len() == 0 {
        0
    } else {
        match recs.last().event {
            LogEvent::NodeStatusChanged { node: Some(n), breaker_reset, .. } => if n == node && breaker_reset {
                recs.last().seq
            } else {
                last_reset_seq(recs.drop_last(), node)
            },
            _ => last_reset_seq(recs.drop_last(), node),
        }
    }
}

/// The ids of the `SpawnRequested` after sequence `after` that start with `prefix`, in order.
pub open spec fn spawn_ids_after(recs: Seq<LogRecord>, after: u64, prefix: Seq<char>) -> Seq<Seq<char>>
    decreases recs.len(),
{
    if recs.len() == 0 {
        Seq::empty()
    } else {
        let e = spawn_ids_after(recs.drop_last(), after, prefix);
        match recs.last().event {
            LogEvent::SpawnRequested { id, .. } => if recs.last().seq > after && starts_with(id@, prefix) {
                e.push(id@)
            } else {
                e
            },
            _ => e,
        }
    }
}

/// The prefix of the stall re-dispatch ids of a node (by its label).
pub open spec fn stall_prefix(node_label: Seq<char>) -> Seq<char> {
    seq!['s', 't', 'a', 'l', 'l', '-', 'r', 'e', 's', 'p', 'a', 'w', 'n', ':'] + node_label + seq![':']
}

/// The ids of the stall re-dispatches (`stall-respawn:{node}:…`) requested for `node` AFTER the
/// last human reset of its breaker: scoping to after the reset makes the gesture restart the
/// protocol (empty ⇒ re-dispatch; this epoch's id ⇒ wait; another epoch ⇒ escalate).
pub fn stall_respawn_ids_since_reset(records: &[LogRecord], node: NodeId, node_label: &str) -> (r: Vec<String>)
    ensures
        views(r@) == spawn_ids_after(records@, last_reset_seq(records@, node), stall_prefix(node_label@)),
{
    let mut prefix: Vec<char> = vec!['s', 't', 'a', 'l', 'l', '-', 'r', 'e', 's', 'p', 'a', 'w', 'n', ':'];
    append_chars(&mut prefix, &chars_of(node_label));
    prefix.push(':');
    assert(prefix@ =~= stall_prefix(node_label@));
    let mut last_reset: u64 = 0;
    let mut i: usize = 0;
    while i < records.len()
        invariant
            i <= records@.len(),
            last_reset == last_reset_seq(records@.take(i as int), node),
        decreases records.len() - i,
    {
        assert(records@.take(i + 1).drop_last() =~= records@.take(i as int));
        match &records[i].event {
            LogEvent::NodeStatusChanged { node: Some(n), breaker_reset, .. } => {
                if *n == node && *breaker_reset {
                    last_reset = records[i].seq;
                }
            },
            _ => {},
        }
        i = i + 1;
    }
    assert(records@.take(records@.len() as int) =~= records@);
    let mut out: Vec<String> = Vec::new();
    let mut k: usize = 0;
    while k < records.len()
        invariant
            k <= records@.len(),
            prefix@ == stall_prefix(node_label@),
            last_reset == last_reset_seq(records@, node),
            views(out@) == spawn_ids_after(records@.take(k as int), last_reset, prefix@),
        decreases records.len() - k,
    {
        assert(records@.take(k + 1).drop_last() =~= records@.take(k as int));
        match &records[k].event {
            LogEvent::SpawnRequested { id, .. } => {
                if records[k].seq > last_reset && starts_with_chars(&chars_of(id.as_str()), &prefix) {
                    let ghost before = out@;
                    out.push(id.clone());
                    assert(views(out@) =~= views(before).push(id@));
                }
            },
            _ => {},
        }
        k = k + 1;
    }
    assert(records@.take(records@.len() as int) =~= records@);
    out
}

impl Router {
    /// Arms the watch of `target` on a 1-to-1 delivery at `now_ms`, logged at sequence `seq`.
    pub fn arm_dispatch(&mut self, target: NodeId, now_ms: u64, seq: u64)
        requires
            old(self).wf(),
        ensures
            final(self).wf(),
            final(self)@ == (RouterView { dispatched: old(self)@.dispatched.insert(target, (now_ms, seq)), ..old(self)@ }),
    {
        self.dispatched_at.insert(target, (now_ms, seq));
    }

    /// The highest log sequence already scanned for progress (read the log after it).
    pub fn dispatch_progress_seq(&self) -> (r: u64)
        ensures
            r == self@.progress_seq,
    {
        self.dispatch_progress_seq
    }

    /// Disarms the watch by PROGRESS, reading only the records after the cursor (`delta`, in log
    /// order): a progress event of a watched node disarms it only if it came after the delivery
    /// that armed it. The cursor advances to the last record.
    pub fn sync_dispatch_progress(&mut self, delta: &[LogRecord])
        requires
            old(self).wf(),
        ensures
            final(self).wf(),
            final(self)@ == (RouterView {
                dispatched: disarmed(old(self)@.dispatched, delta@),
                progress_seq: if delta@.len() == 0 {
                    old(self)@.progress_seq
                } else {
                    delta@.last().seq
                },
                ..old(self)@
            }),
    {
        let ghost d0 = self@.dispatched;
        let mut i: usize = 0;
        while i < delta.len()
            invariant
                i <= delta@.len(),
                self.wf(),
                self@ == (RouterView { dispatched: disarmed(d0, delta@.take(i as int)), ..old(self)@ }),
            decreases delta.len() - i,
        {
            assert(delta@.take(i + 1).drop_last() =~= delta@.take(i as int));
            let rec = &delta[i];
            let node: Option<NodeId> = match &rec.event {
                LogEvent::TokenUsageReported { node, .. } => *node,
                LogEvent::MessageRouted { from, .. } => *from,
                LogEvent::NodeExited { node } => *node,
                LogEvent::NodeStatusChanged { node, busy_output, dead, .. } => {
                    if *busy_output || *dead {
                        *node
                    } else {
                        None
                    }
                },
                _ => None,
            };
            match node {
                Some(n) => {
                    let armed_before = match self.dispatched_at.get(&n) {
                        Some(a) => rec.seq > a.1,
                        None => false,
                    };
                    if armed_before {
                        self.dispatched_at.remove(&n);
                    }
                },
                None => {},
            }
            i = i + 1;
        }
        assert(delta@.take(delta@.len() as int) =~= delta@);
        if delta.len() > 0 {
            self.dispatch_progress_seq = delta[delta.len() - 1].seq;
        }
    }

    /// `true` while `node` has a delivery pending without progress (a re-dispatch to it is a
    /// correction, exempt from the tight-loop guard).
    pub fn dispatch_pending(&self, node: NodeId) -> (r: bool)
        requires
            self.wf(),
        ensures
            r == self@.dispatched.dom().contains(node),
    {
        self.dispatched_at.contains_key(&node)
    }

    /// The SWALLOWED nodes at `now_ms`: a delivery pending without progress for at least
    /// `window_ms`, and the node back to `Idle` (listed in `idle`). Each with its delivery time.
    pub fn swallowed_nodes(&self, now_ms: u64, window_ms: u64, idle: &[NodeId]) -> (r: Vec<(NodeId, u64)>)
        requires
            self.wf(),
        ensures
            forall|n: NodeId, t: u64| #[trigger] r@.contains((n, t)) <==> (self@.dispatched.dom().contains(n)
                && self@.dispatched[n].0 == t && sat_sub(now_ms, t) >= window_ms && idle@.contains(n)),
    {
        let pairs = self.dispatched_at.pairs();
        proof {
            assert forall|j: int| 0 <= j < pairs@.len() implies #[trigger] self@.dispatched.dom().contains(pairs@[j].0)
                && self@.dispatched[pairs@[j].0] == pairs@[j].1 by {
                let e = pairs@[j];
                assert(e.0@ == e.0);
            }
        }
        let mut out: Vec<(NodeId, u64)> = Vec::new();
        let mut i: usize = 0;
        while i < pairs.len()
            invariant
                i <= pairs@.len(),
                forall|j: int| 0 <= j < pairs@.len() ==> #[trigger] self@.dispatched.dom().contains(pairs@[j].0)
                    && self@.dispatched[pairs@[j].0] == pairs@[j].1,
                forall|n: NodeId, t: u64| #[trigger] out@.contains((n, t)) <==> (exists|j: int| 0 <= j < i
                    && #[trigger] pairs@[j].0 == n && pairs@[j].1.0 == t) && sat_sub(now_ms, t) >= window_ms
                    && idle@.contains(n),
            decreases pairs.len() - i,
        {
            let (n, at) = pairs[i];
            let ghost before = out@;
            if now_ms.saturating_sub(at.0) >= window_ms && contains_node_slice(idle, n) {
                out.push((n, at.0));
            }
            proof {
                assert forall|m: NodeId, t: u64| #[trigger] out@.contains((m, t)) <==> (exists|j: int| 0 <= j < i + 1
                    && #[trigger] pairs@[j].0 == m && pairs@[j].1.0 == t) && sat_sub(now_ms, t) >= window_ms
                    && idle@.contains(m) by {
                    if out@.contains((m, t)) && !before.contains((m, t)) {
                        assert(out@[out@.len() - 1] == (m, t)) by {
                            let k = choose|k: int| 0 <= k < out@.len() && out@[k] == (m, t);
                            if k < before.len() {
                                assert(before[k] == (m, t));
                            }
                        }
                        assert(pairs@[i as int].0 == m);
                    }
                    if before.contains((m, t)) {
                        let k = choose|k: int| 0 <= k < before.len() && before[k] == (m, t);
                        assert(out@[k] == (m, t));
                    }
                    if (exists|j: int| 0 <= j < i + 1 && #[trigger] pairs@[j].0 == m && pairs@[j].1.0 == t)
                        && sat_sub(now_ms, t) >= window_ms && idle@.contains(m) {
                        let j = choose|j: int| 0 <= j < i + 1 && #[trigger] pairs@[j].0 == m && pairs@[j].1.0 == t;
                        if j < i {
                            assert(before.contains((m, t)));
                            let k = choose|k: int| 0 <= k < before.len() && before[k] == (m, t);
                            assert(out@[k] == (m, t));
                        } else {
                            assert(out@[out@.len() - 1] == (m, t));
                        }
                    }
                }
            }
            i = i + 1;
        }
        proof {
            assert forall|n: NodeId, t: u64| #[trigger] out@.contains((n, t)) <==> (self@.dispatched.dom().contains(n)
                && self@.dispatched[n].0 == t && sat_sub(now_ms, t) >= window_ms && idle@.contains(n)) by {
                if self@.dispatched.dom().contains(n) && self@.dispatched[n].0 == t {
                    assert(self.dispatched_at.map().dom().contains(n));
                    let j = choose|j: int| #![trigger pairs@[j]] 0 <= j < pairs@.len() && pairs@[j].0@ == n;
                    let e = pairs@[j];
                    assert(e.0 == n);
                    assert(self@.dispatched.dom().contains(pairs@[j].0));
                }
            }
        }
        out
    }

    /// The protocol's step for a swallowed `node`, given whether it owns an item of a goal,
    /// whether this delivery epoch was already re-dispatched, and whether there was no
    /// re-dispatch since the last human reset.
    pub fn stall_step(&self, node: NodeId, has_goal_item: bool, epoch_redispatched: bool, none_since_reset: bool) -> (r: StallStep)
        requires
            self.wf(),
        ensures
            r == stall_step_spec(self@.breaker.contains(node), has_goal_item, epoch_redispatched, none_since_reset),
    {
        if self.breaker_open.contains_key(&node) || !has_goal_item || epoch_redispatched {
            StallStep::Skip
        } else if none_since_reset {
            StallStep::Redispatch
        } else {
            StallStep::Escalate
        }
    }

    /// Opens the breaker of a node whose re-dispatch was swallowed too (sticky until a human
    /// resets it; the caller marks the node `Blocked` and escalates).
    pub fn open_stall_breaker(&mut self, node: NodeId)
        requires
            old(self).wf(),
        ensures
            final(self).wf(),
            final(self)@ == (RouterView { breaker: old(self)@.breaker.insert(node), ..old(self)@ }),
    {
        let ghost v = self@;
        self.breaker_open.insert(node, true);
        assert(self@.breaker =~= v.breaker.insert(node));
    }

    /// A goal confirmation assembles the team by itself only from the direct human gesture, or
    /// under `autonomous` autonomy; otherwise the fact is logged and the assembly waits.
    pub fn confirm_assembles_team(&self, sender: NodeId) -> (r: bool)
        ensures
            r == (sender == HUMAN_GESTURE || self@.config.autonomy == AutonomyLevel::Autonomous),
    {
        sender == HUMAN_GESTURE || match self.config.autonomy {
            AutonomyLevel::Autonomous => true,
            _ => false,
        }
    }
}

fn contains_node_slice(v: &[NodeId], x: NodeId) -> (r: bool)
    ensures
        r == v@.contains(x),
{
    let mut i: usize = 0;
    while i < v.len()
        invariant
            i <= v@.len(),
            forall|j: int| 0 <= j < i ==> v@[j] != x,
        decreases v.len() - i,
    {
        if v[i] == x {
            return true;
        }
        i = i + 1;
    }
    false
}

// ---------------------------------------------------------------------------------------------
// Laws of the guardrails.

/// Dedupe: a message admitted as new at `t1` is a duplicate when the same id is admitted again at
/// any `t2` with `t1 <= t2 < t1 + dedupe_window_ms` (unless the brake queues it first).
pub proof fn law_dedupe_within_window(
    v: RouterView,
    id: Seq<char>,
    intent1: Seq<char>,
    reply1: bool,
    t1: u64,
    intent2: Seq<char>,
    reply2: bool,
    t2: u64,
)
    requires
        admission(v, id, intent1, reply1, t1).0 == Admission::Fresh,
        t1 <= t2,
        t2 - t1 < v.config.dedupe_window_ms,
        !queued_by_brake(v.paused, intent2, reply2),
    ensures
        admission(admission(v, id, intent1, reply1, t1).1, id, intent2, reply2, t2).0 == Admission::Duplicate,
{
    let w = admission(v, id, intent1, reply1, t1).1;
    assert(w.seen.dom().contains(id) && w.seen[id] == t1);
    assert(pruned(w, t2).seen.dom().contains(id));
}

/// Dedupe expires: once the window has passed, the same id is new again.
pub proof fn law_dedupe_expires(
    v: RouterView,
    id: Seq<char>,
    intent1: Seq<char>,
    reply1: bool,
    t1: u64,
    intent2: Seq<char>,
    reply2: bool,
    t2: u64,
)
    requires
        admission(v, id, intent1, reply1, t1).0 == Admission::Fresh,
        t2 >= t1 + v.config.dedupe_window_ms,
        !queued_by_brake(v.paused, intent2, reply2),
    ensures
        admission(admission(v, id, intent1, reply1, t1).1, id, intent2, reply2, t2).0 == Admission::Fresh,
{
    let w = admission(v, id, intent1, reply1, t1).1;
    assert(w.seen[id] == t1);
    assert(!pruned(w, t2).seen.dom().contains(id));
}

/// The brake: while paused, a new delegation or spawn that is not a reply is queued and changes
/// nothing; replies always go through.
pub proof fn law_brake_queues_delegations(v: RouterView, id: Seq<char>, intent: Seq<char>, has_reply_to: bool, now: u64)
    requires
        v.paused,
    ensures
        !has_reply_to && (delegation_intent(intent) || spawn_intent(intent)) ==> admission(v, id, intent, has_reply_to, now)
            == (Admission::Queued, v),
        has_reply_to ==> admission(v, id, intent, has_reply_to, now).0 != Admission::Queued,
{
}

/// Anti-poisoning: a live binding of a node to one root is never overwritten by a delivery or
/// seed of a DIFFERENT root; the node keeps deriving its chain from the first root.
pub proof fn law_binding_not_poisoned(v: RouterView, node: NodeId, root: String, hops: u8, now: u64, msg_id: Seq<char>)
    requires
        v.bindings.dom().contains(node),
        v.bindings[node].0@ != root@,
    ensures
        bound(v, node, root, hops, now).bindings[node] == v.bindings[node],
        root_hops(bound(v, node, root, hops, now), msg_id, node).0 == v.bindings[node].0@,
{
}

/// Chains deepen: a node bound to a chain at depth `h` derives that chain's root at depth `h + 1`
/// for the messages it submits (up to the `u8` ceiling).
pub proof fn law_chain_propagates(v: RouterView, node: NodeId, root: String, hops: u8, now: u64, msg_id: Seq<char>)
    requires
        !v.bindings.dom().contains(node) || v.bindings[node].0@ == root@,
        hops < u8::MAX,
    ensures
        root_hops(bound(v, node, root, hops, now), msg_id, node) == (root@, (hops + 1) as u8),
{
}

/// Origin messages (`hops == 0`, sent by a node no chain reached) are never limited by the fan-out
/// gate nor by the delegation budget: those only bind the cascade.
pub proof fn law_origin_not_limited(
    v: RouterView,
    sender: NodeId,
    root: Seq<char>,
    intent: Seq<char>,
    is_broadcast: bool,
    targets: usize,
    tokens: u64,
    paused: bool,
)
    ensures
        gate_spec(v, sender, root, 0, intent, is_broadcast, targets, tokens, paused) != Gate::BudgetExceeded,
        !(gate_spec(v, sender, root, 0, intent, is_broadcast, targets, tokens, paused) is FanoutGated),
{
}

/// The budget binds the cascade: a cascaded delegation whose `(root, sender)` already used the
/// whole budget is refused, whatever the later guardrails.
pub proof fn law_cascade_budget_enforced(
    v: RouterView,
    sender: NodeId,
    root: Seq<char>,
    hops: u8,
    intent: Seq<char>,
    targets: usize,
    tokens: u64,
)
    requires
        1 <= hops <= v.config.max_depth,
        targets >= 1,
        v.config.autonomy != AutonomyLevel::Manual,
        v.config.token_budget_day == 0,
        delegation_intent(intent),
        budget_count(v, root, sender) >= v.config.delegation_budget,
    ensures
        gate_spec(v, sender, root, hops, intent, false, targets, tokens, false) == Gate::BudgetExceeded,
{
}

/// Retention never waits forever: once a retained message has waited `retention_timeout_ms`,
/// its verdict is the dead-letter queue, whatever the target's state.
pub proof fn law_retention_is_bounded(v: RouterView, id: Seq<char>, target: NodeId, status: Option<NodeStatus>, now: u64)
    requires
        v.retained.dom().contains(id),
        now >= v.retained[id] + v.config.retention_timeout_ms,
    ensures
        retention(v, id, Some(target), status, now) == (Verdict::DeadLetter { target }, v),
{
}

/// Pruning never drops the binding of a node taking part in an open await (its chain is still
/// alive), however old the binding.
pub proof fn law_awaiting_binding_survives(v: RouterView, n: NodeId, now: u64)
    requires
        v.bindings.dom().contains(n),
        awaiting(v.pending, n),
    ensures
        pruned(v, now).bindings.dom().contains(n),
        pruned(v, now).bindings[n] == v.bindings[n],
{
}

/// The brake is rebuilt from the log: the last `OrchestrationPaused`/`OrchestrationResumed` wins.
pub proof fn law_last_brake_event_wins(recs: Seq<LogRecord>, rec: LogRecord)
    ensures
        rec.event is OrchestrationPaused ==> paused_after(recs.push(rec)),
        rec.event is OrchestrationResumed ==> !paused_after(recs.push(rec)),
        !(rec.event is OrchestrationPaused) && !(rec.event is OrchestrationResumed) ==> paused_after(recs.push(rec))
            == paused_after(recs),
{
    assert(recs.push(rec).drop_last() =~= recs);
}

/// The cost window is daily: a record of another UTC day changes nothing.
pub proof fn law_cost_window_is_daily(recs: Seq<LogRecord>, rec: LogRecord, day: Seq<char>)
    requires
        utc_day_spec(rec.ts) != day,
    ensures
        cost_window(recs.push(rec), day) == cost_window(recs, day),
{
    assert(recs.push(rec).drop_last() =~= recs);
}

/// A human resume reopens the window: after `CostCeilingResumed` the workspace is no longer
/// paused and the usage counts from zero.
pub proof fn law_resume_reopens_window(recs: Seq<LogRecord>, rec: LogRecord, day: Seq<char>)
    requires
        utc_day_spec(rec.ts) == day,
        rec.event is CostCeilingResumed,
    ensures
        cost_window(recs.push(rec), day) == (0u64, false),
{
    assert(recs.push(rec).drop_last() =~= recs);
}

/// Cooperation: the tight-loop guard never cuts a hop repeated fewer than `max_revisits` times
/// (a dialogue round trip), nor a hop that closes no cycle.
pub proof fn law_loop_guard_spares_dialogue(edges: Seq<(NodeId, NodeId)>, sender: NodeId, target: NodeId, max_revisits: u32)
    requires
        edge_count(edges, sender, target) < max_revisits || !reachable(edges, target, sender),
    ensures
        !(edge_count(edges, sender, target) >= max_revisits && reachable(edges, target, sender)),
{
}

/// Every node reaches itself, and a hop `a → b` extends what `a` reaches.
pub proof fn law_reachability(edges: Seq<(NodeId, NodeId)>, a: NodeId, b: NodeId, c: NodeId)
    ensures
        reachable(edges, a, a),
        reachable(edges, a, b) && edges.contains((b, c)) ==> reachable(edges, a, c),
{
    let p = seq![a];
    assert(is_walk(edges, p));
    if reachable(edges, a, b) && edges.contains((b, c)) {
        lemma_reach_step(edges, a, b, c);
    }
}

/// Anti-fork-bomb: a spawn from a node that a chain reached (`hops >= 1`) is never approved by
/// itself; it waits for a human (or is refused under `manual` autonomy), and changes nothing.
pub proof fn law_cascade_spawn_needs_human(v: RouterView, sender: NodeId, root: Seq<char>, hops: u8, cost_paused: bool, now: u64)
    requires
        hops >= 1,
    ensures
        spawn_gate_spec(v, sender, root, hops, cost_paused, now).0 != SpawnGate::Approved,
        spawn_gate_spec(v, sender, root, hops, cost_paused, now).1 == v,
{
}

/// The effort ladder climbs at most one rung per iteration, never goes down, and stays on the
/// ladder.
pub proof fn law_ladder_one_rung_per_iteration(len: nat, it: u32)
    requires
        len > 0,
        it < u32::MAX,
    ensures
        ladder_index(len, it) < len,
        ladder_index(len, it) <= ladder_index(len, (it + 1) as u32) <= ladder_index(len, it) + 1,
{
}

/// The ordering guard of the dispatch watch: progress logged at or before the delivery that armed
/// a node's watch never disarms it; progress logged after it does.
pub proof fn law_watch_ordering(d: Map<NodeId, (u64, u64)>, rec: LogRecord, n: NodeId)
    requires
        d.dom().contains(n),
        progress_node(rec.event) == Some(n),
    ensures
        rec.seq <= d[n].1 ==> disarmed(d, seq![rec]) == d,
        rec.seq > d[n].1 ==> !disarmed(d, seq![rec]).dom().contains(n),
{
    let one = seq![rec];
    assert(one.drop_last() =~= Seq::<LogRecord>::empty());
    assert(disarmed(d, one.drop_last()) == d);
    assert(one.last() == rec);
}

proof fn lemma_no_spawn_after(recs: Seq<LogRecord>, after: u64, prefix: Seq<char>)
    requires
        forall|i: int| 0 <= i < recs.len() ==> #[trigger] recs[i].seq <= after,
    ensures
        spawn_ids_after(recs, after, prefix).len() == 0,
    decreases recs.len(),
{
    if recs.len() > 0 {
        let t = recs.drop_last();
        assert forall|i: int| 0 <= i < t.len() implies #[trigger] t[i].seq <= after by {
            assert(t[i] == recs[i]);
        }
        lemma_no_spawn_after(t, after, prefix);
        assert(recs[recs.len() - 1].seq <= after);
    }
}

/// A human reset of a node's breaker restarts the swallowed-dispatch protocol: right after it
/// (in a log whose sequence numbers grow), no stall re-dispatch of the node counts.
pub proof fn law_reset_restarts_protocol(recs: Seq<LogRecord>, rec: LogRecord, node: NodeId, node_label: Seq<char>)
    requires
        rec.event matches LogEvent::NodeStatusChanged { node: Some(n), breaker_reset: true, .. } && n == node,
        forall|i: int| 0 <= i < recs.len() ==> #[trigger] recs[i].seq <= rec.seq,
    ensures
        spawn_ids_after(recs.push(rec), last_reset_seq(recs.push(rec), node), stall_prefix(node_label)).len() == 0,
{
    let all = recs.push(rec);
    assert(all.drop_last() =~= recs);
    assert(last_reset_seq(all, node) == rec.seq);
    assert forall|i: int| 0 <= i < all.len() implies #[trigger] all[i].seq <= rec.seq by {
        if i < recs.len() {
            assert(all[i] == recs[i]);
        }
    }
    lemma_no_spawn_after(all, rec.seq, stall_prefix(node_label));
}

/// The protocol re-dispatches a swallowed node once, then escalates: never a third automatic
/// attempt while its breaker is open.
pub proof fn law_stall_protocol(has_goal_item: bool, epoch_redispatched: bool, none_since_reset: bool)
    ensures
        stall_step_spec(true, has_goal_item, epoch_redispatched, none_since_reset) == StallStep::Skip,
        has_goal_item && !epoch_redispatched ==> stall_step_spec(false, has_goal_item, epoch_redispatched, none_since_reset)
            == (if none_since_reset {
            StallStep::Redispatch
        } else {
            StallStep::Escalate
        }),
{
}

/// The team assembly is idempotent: every spawn it still owes is one not yet logged, and it never
/// owes the same spawn twice.
pub proof fn law_team_assembly_idempotent(recs: Seq<LogRecord>, goal: Seq<char>, team: Seq<Seq<char>>)
    ensures
        forall|i: int| 0 <= i < owed_spawns(recs, goal, team).len() ==> !spawn_logged(recs, #[trigger] owed_spawns(recs, goal, team)[i].0),
        forall|i: int, j: int| 0 <= i < j < owed_spawns(recs, goal, team).len() ==> #[trigger] owed_spawns(recs, goal, team)[i]
            != #[trigger] owed_spawns(recs, goal, team)[j],
    decreases team.len(),
{
    if team.len() > 0 {
        law_team_assembly_idempotent(recs, goal, team.drop_last());
        let o = owed_spawns(recs, goal, team.drop_last());
        let w = owed_spawns(recs, goal, team);
        if w != o {
            assert forall|i: int| 0 <= i < w.len() implies !spawn_logged(recs, #[trigger] w[i].0) by {
                if i < o.len() {
                    assert(w[i] == o[i]);
                }
            }
            assert forall|i: int, j: int| 0 <= i < j < w.len() implies #[trigger] w[i] != #[trigger] w[j] by {
                if j < o.len() {
                    assert(w[i] == o[i] && w[j] == o[j]);
                } else {
                    assert(w[i] == o[i]);
                }
            }
        }
    }
}

/// State-aware delivery: a message whose single target is `Busy` is never injected: it is held
/// (or, past the retention ceiling, dead-lettered).
pub proof fn law_busy_target_not_injected(
    v: RouterView,
    id: Seq<char>,
    intent: Seq<char>,
    reply_to: Option<Seq<char>>,
    await_reply: bool,
    f: RouteFacts,
    tokens: u64,
    paused: bool,
    now: u64,
)
    requires
        f.single_target is Some,
        f.single_status == Some(NodeStatus::Busy),
    ensures
        guard_pipeline(v, id, intent, reply_to, await_reply, f, tokens, paused, now).0 is Held
            || guard_pipeline(v, id, intent, reply_to, await_reply, f, tokens, paused, now).0 is DeadLetter,
{
}

/// A reply closes its await only when authentic, and only a closed await lets the hop skip the
/// tight-loop guard: a forged `reply_to` (no ticket, a non-target sender, or another
/// destination) leaves the ticket open and the hop subject to every guardrail.
pub proof fn law_forged_reply_skips_nothing(
    v: RouterView,
    id: Seq<char>,
    intent: Seq<char>,
    q: Seq<char>,
    await_reply: bool,
    f: RouteFacts,
    tokens: u64,
    paused: bool,
    now: u64,
)
    requires
        retention(v, id, f.single_target, f.single_status, now).0 == Verdict::Pass,
        !(v.pending.dom().contains(q) && v.pending[q].target == f.sender && f.to_node == Some(v.pending[q].waiter)),
    ensures
        guard_pipeline(v, id, intent, Some(q), await_reply, f, tokens, paused, now) == guard_pipeline(
            v,
            id,
            intent,
            None,
            await_reply,
            f,
            tokens,
            paused,
            now,
        ),
{
}

proof fn lemma_respawn_count_concat(a: Seq<LogRecord>, b: Seq<LogRecord>, goal: Seq<char>, item: Seq<char>, effort: Effort)
    ensures
        respawn_count(a + b, goal, item, effort) == respawn_count(a, goal, item, effort) + respawn_count(b, goal, item, effort),
    decreases b.len(),
{
    if b.len() == 0 {
        assert(a + b =~= a);
    } else {
        assert((a + b).drop_last() =~= a + b.drop_last());
        assert((a + b).last() == b.last());
        lemma_respawn_count_concat(a, b.drop_last(), goal, item, effort);
    }
}

/// The escalation never repeats itself: once the re-spawn it asked for is logged, no later
/// failure of the same item (whatever else the log gains) escalates again with the same effort.
pub proof fn law_no_identical_respawn(
    ladder: Seq<Effort>,
    recs: Seq<LogRecord>,
    goal: Seq<char>,
    item: Seq<char>,
    target_name: Seq<char>,
    iteration: u32,
    rec: LogRecord,
    later: Seq<LogRecord>,
    next_name: Seq<char>,
    next_iteration: u32,
)
    requires
        escalation_spec(ladder, recs, goal, item, target_name, iteration) is Some,
        ({
            let first = escalation_spec(ladder, recs, goal, item, target_name, iteration)->0;
            rec.event matches LogEvent::SpawnRequested { id, effort, .. } && id@ == first.0 && effort == Some(first.2)
        }),
    ensures
        ({
            let first = escalation_spec(ladder, recs, goal, item, target_name, iteration)->0;
            match escalation_spec(ladder, recs.push(rec) + later, goal, item, next_name, next_iteration) {
                Some(next) => next.2 != first.2,
                None => true,
            }
        }),
{
    let first = escalation_spec(ladder, recs, goal, item, target_name, iteration)->0;
    let rung = ladder_index(ladder.len(), iteration);
    let p = if first.3 {
        newdev_prefix(goal, item)
    } else {
        respawn_prefix(goal, item)
    };
    let d = if first.3 {
        decimal(rung)
    } else {
        decimal(iteration as nat)
    };
    assert(first.0 == p + d);
    assert((p + d).take(p.len() as int) =~= p);
    assert(respawn_of(rec.event, goal, item, first.2));
    assert(recs.push(rec).drop_last() =~= recs);
    lemma_respawn_count_concat(recs.push(rec), later, goal, item, first.2);
}

/// The goal's outer loop closes a goal only when every one of its items passes (after a pass),
/// and at or past the turn budget a failure never asks for one more turn.
pub proof fn law_goal_loop_is_bounded(
    recs: Seq<LogRecord>,
    items: Seq<Seq<char>>,
    goal: Seq<char>,
    passed: bool,
    iteration: u32,
    max_iterations: u32,
)
    ensures
        goal_advance_spec(recs, items, goal, passed, iteration, max_iterations) is Achieved ==> passed
            && items.len() > 0 && forall|k: int| 0 <= k < items.len() ==> last_verdict(recs, goal, #[trigger] items[k])
            == Some(ReviewOutcome::Pass),
        iteration >= max_iterations ==> goal_advance_spec(recs, items, goal, passed, iteration, max_iterations)
            != GoalAdvance::Escalate,
        !passed && iteration >= max_iterations ==> goal_advance_spec(recs, items, goal, passed, iteration, max_iterations)
            == GoalAdvance::BudgetExhausted,
{
}

/// An agent in cascade never assigns an effort to itself, and an accepted assignment is credited
/// to the sender exactly when it comes from a cascade (the human at the origin otherwise).
pub proof fn law_effort_not_self_promoted(
    target: Seq<char>,
    resolved: Option<NodeId>,
    sender: NodeId,
    hops: u8,
    effort: Option<Seq<char>>,
)
    ensures
        hops >= 1 && resolved == Some(sender) ==> effort_assignment_spec(target, resolved, sender, hops, effort) is Err,
        effort_assignment_spec(target, resolved, sender, hops, effort) matches Ok(a) ==> (a.by == if hops >= 1 {
            Some(sender)
        } else {
            None::<NodeId>
        }) && Some(a.node) == resolved,
{
}

proof fn lemma_ledger_persists(a: Seq<LogRecord>, b: Seq<LogRecord>, id: Seq<char>)
    requires
        ledger_of(a, id) is Some,
    ensures
        ledger_of(a + b, id) is Some,
        ledger_of(a, id)->0.delivered ==> ledger_of(a + b, id)->0.delivered,
    decreases b.len(),
{
    if b.len() == 0 {
        assert(a + b =~= a);
    } else {
        assert((a + b).drop_last() =~= a + b.drop_last());
        assert((a + b).last() == b.last());
        lemma_ledger_persists(a, b.drop_last(), id);
    }
}

/// Exactly once across restarts: a message the log shows as routed is never routed again by the
/// pump, whatever the log gains afterwards; and once its delivery is logged (with no retry in
/// course) the pump only acknowledges it, never injects it again.
pub proof fn law_no_reroute_after_restart(
    recs: Seq<LogRecord>,
    id: Seq<char>,
    rec: LogRecord,
    later: Seq<LogRecord>,
    retry: Option<(NodeId, u32)>,
)
    requires
        ledger_of(recs, id) is Some,
    ensures
        pump_step_spec(retry, ledger_of(recs + later, id)) != PumpStep::Route,
        (rec.event matches LogEvent::MessageDelivered { id: i } && i@ == id) ==> pump_step_spec(
            None,
            ledger_of(recs.push(rec) + later, id),
        ) == PumpStep::Acknowledge,
{
    lemma_ledger_persists(recs, later, id);
    if rec.event matches LogEvent::MessageDelivered { id: i } && i@ == id {
        assert(recs.push(rec).drop_last() =~= recs);
        assert(ledger_of(recs.push(rec), id)->0.delivered);
        lemma_ledger_persists(recs.push(rec), later, id);
    }
}

/// The spawn ladders never mix in their counts: a stall re-dispatch id or a team-assembly id is
/// never taken for an escalation re-spawn of any goal item (nor the reverse for stall ids).
pub proof fn law_spawn_ladders_never_mix(
    id: Seq<char>,
    node_label: Seq<char>,
    goal: Seq<char>,
    item: Seq<char>,
    team_goal: Seq<char>,
    role: Seq<char>,
)
    ensures
        starts_with(id, stall_prefix(node_label)) ==> !starts_with(id, respawn_prefix(goal, item))
            && !starts_with(id, newdev_prefix(goal, item)),
        id == team_spawn_id(team_goal, role) ==> !starts_with(id, respawn_prefix(goal, item)) && !starts_with(
            id,
            newdev_prefix(goal, item),
        ),
{
    let rp = respawn_prefix(goal, item);
    let np = newdev_prefix(goal, item);
    assert(rp[0] == 'g' && rp[5] == 'r');
    assert(np[0] == 'g' && np[5] == 'n');
    if starts_with(id, stall_prefix(node_label)) {
        assert(id.take(stall_prefix(node_label).len() as int)[0] == 's');
        if starts_with(id, rp) {
            assert(id.take(rp.len() as int)[0] == id[0]);
        }
        if starts_with(id, np) {
            assert(id.take(np.len() as int)[0] == id[0]);
        }
    }
    if id == team_spawn_id(team_goal, role) {
        assert(id[5] == 't');
        if starts_with(id, rp) {
            assert(id.take(rp.len() as int)[5] == id[5]);
        }
        if starts_with(id, np) {
            assert(id.take(np.len() as int)[5] == id[5]);
        }
    }
}

/// The event interprets `goal`.
pub open spec fn interprets(e: LogEvent, goal: Seq<char>) -> bool {
    e matches LogEvent::GoalInterpreted { goal_id, .. } && goal_id@ == goal
}

/// The last interpretation of a goal wins: after a `GoalInterpreted`, the team the goal proposes
/// is that interpretation's, whatever else the log gains until the next interpretation of it.
pub proof fn law_last_interpretation_wins(recs: Seq<LogRecord>, rec: LogRecord, later: Seq<LogRecord>, goal: Seq<char>)
    requires
        interprets(rec.event, goal),
        forall|i: int| 0 <= i < later.len() ==> !interprets(#[trigger] later[i].event, goal),
    ensures
        team_of(recs.push(rec) + later, goal) == (match rec.event {
            LogEvent::GoalInterpreted { proposed_team, .. } => views(proposed_team@),
            _ => Seq::empty(),
        }),
    decreases later.len(),
{
    if later.len() == 0 {
        assert(recs.push(rec) + later =~= recs.push(rec));
    } else {
        let all = recs.push(rec) + later;
        assert(all.drop_last() =~= recs.push(rec) + later.drop_last());
        assert(all.last() == later[later.len() - 1]);
        assert(!interprets(later[later.len() - 1].event, goal));
        assert forall|i: int| 0 <= i < later.drop_last().len() implies !interprets(
            #[trigger] later.drop_last()[i].event,
            goal,
        ) by {
            assert(later.drop_last()[i] == later[i]);
        }
        law_last_interpretation_wins(recs, rec, later.drop_last(), goal);
    }
}

/// Parameters verbs: the stamp `by` comes from the sender's chain alone (whatever the payload
/// holds), a value out of range is never applied (refused, not clamped), and a change that weakens
/// a balancing loop is never applied directly.
pub proof fn law_params_stamp_and_range(
    intent: Seq<char>,
    key: Seq<char>,
    scope: Seq<char>,
    value: Seq<char>,
    target: Option<Seq<char>>,
    range_error: Option<Seq<char>>,
    weakens_balancing_loop: bool,
    hops: u8,
)
    ensures
        params_verdict_spec(intent, key, scope, value, target, range_error, weakens_balancing_loop, hops) matches ParamsModel::Applied { by, .. } ==> by == params_by(hops),
        intent == seq!['p', 'a', 'r', 'a', 'm', 's', '.', 's', 'e', 't'] && (range_error is Some || weakens_balancing_loop)
            ==> !(params_verdict_spec(intent, key, scope, value, target, range_error, weakens_balancing_loop, hops) is Applied),
{
}

/// Goal verbs: a confirmation is always stamped with the authenticated sender, and an
/// interpretation never carries a machine check (every criterion is a human review).
pub proof fn law_goal_event_stamps(
    e: GoalEvent,
    intent: Seq<char>,
    statement: Seq<char>,
    goal_id: Seq<char>,
    interpretation: Seq<char>,
    strategy: Seq<char>,
    team: Seq<Seq<char>>,
    descs: Seq<Seq<char>>,
    amended: Option<Seq<char>>,
    budget_tokens: u64,
    sender: NodeId,
    root: Seq<char>,
    origin: Seq<char>,
)
    requires
        goal_event_is(e, intent, statement, goal_id, interpretation, strategy, team, descs, amended, budget_tokens, sender, root, origin),
    ensures
        e matches GoalEvent::Confirmed { by, .. } ==> by == sender,
        e matches GoalEvent::Interpreted { acceptance_criteria, .. } ==> forall|k: int| 0 <= k < acceptance_criteria@.len()
            ==> (#[trigger] acceptance_criteria@[k]).check_kind == CheckKind::HumanReview,
        e matches GoalEvent::Defined { root_cause_id, .. } ==> root_cause_id@ == root,
{
}

/// Structured verbs never reach a terminal: a plan, spawn, params, effort, goal, code.changed or
/// branch.integrated intent, or a correction sentinel, never goes through the guardrails to a
/// delivery; and every verb is handled only after dedupe and the sender's authentication.
pub proof fn law_structured_verbs_never_delivered(
    admitted: Admission,
    intent: Seq<char>,
    to_is_broadcast: bool,
    sender_known: bool,
    envelope_ok: bool,
    is_correction: bool,
)
    ensures
        (plan_intent(intent) || spawn_intent(intent) || params_intent(intent) || effort_intent(intent)
            || goal_intent(intent) || code_changed_intent(intent) || branch_integrated_intent(intent) || is_correction)
            ==> dispatch_spec(admitted, intent, to_is_broadcast, sender_known, envelope_ok, is_correction)
            != Dispatch::Guardrails,
        ({
            let d = dispatch_spec(admitted, intent, to_is_broadcast, sender_known, envelope_ok, is_correction);
            d != Dispatch::Queued && d != Dispatch::Duplicate && d != Dispatch::Presence && d != Dispatch::UnknownSender
                && d != Dispatch::ContractRejected ==> admitted == Admission::Fresh && sender_known && envelope_ok
        }),
{
}

/// The item is owned by someone other than `author`.
pub open spec fn owned_by_other(it: ClaimFacts, author: Seq<char>) -> bool {
    match it.owner {
        Some(o) => o@ != author,
        None => false,
    }
}

/// A `code.changed` warns each owner at most once, and only the owner of an item in progress that
/// the change touches and that the author does not own.
pub proof fn law_code_changed_notices(author: Seq<char>, items: Seq<ClaimFacts>)
    ensures
        forall|a: int, b: int| 0 <= a < b < notices(author, items).len() ==> notices(author, items)[a]
            != notices(author, items)[b],
        forall|a: int| #![trigger notices(author, items)[a]] 0 <= a < notices(author, items).len() ==> exists|i: int|
            #![trigger items[i]] 0 <= i < items.len() && items[i].owner_node == Some(notices(author, items)[a]) && items[i].doing && items[i].intersects
            && owned_by_other(items[i], author),
    decreases items.len(),
{
    if items.len() > 0 {
        let t = items.drop_last();
        law_code_changed_notices(author, t);
        let acc = notices(author, t);
        let r = notices(author, items);
        assert forall|a: int| #![trigger r[a]] 0 <= a < r.len() implies exists|i: int| #![trigger items[i]] 0 <= i < items.len()
            && items[i].owner_node == Some(r[a]) && items[i].doing && items[i].intersects
            && owned_by_other(items[i], author) by {
            if a < acc.len() {
                assert(r[a] == acc[a]);
                let i = choose|i: int| #![trigger t[i]] 0 <= i < t.len() && t[i].owner_node == Some(acc[a]) && t[i].doing
                    && t[i].intersects && owned_by_other(t[i], author);
                assert(items[i] == t[i]);
            } else {
                assert(items[items.len() - 1].owner_node == Some(r[a]));
            }
        }
    }
}

/// A human confirmation is stamped by the human sentinel, never a roster node, and assembles the
/// team whatever the autonomy level.
pub proof fn law_human_confirm_is_stamped(r: Result<GoalCommand, RouteOutcome>, payload: Seq<char>, autonomy: AutonomyLevel)
    requires
        goal_command_holds(
            r,
            seq!['g', 'o', 'a', 'l', '.', 'c', 'o', 'n', 'f', 'i', 'r', 'm'],
            payload,
            HUMAN_GESTURE,
            Seq::empty(),
            Seq::empty(),
            autonomy,
        ),
    ensures
        r matches Ok(c) ==> (c.event matches GoalEvent::Confirmed { by, .. } && by == HUMAN_GESTURE) && c.assemble_team,
{
}

/// Same-day usage accumulates: a `TokenUsageReported` of `t` tokens logged on the window's day
/// adds `t` to the day's usage (saturating at `u64::MAX`), never replaces it, and leaves the
/// pause as it was; so the day's usage never decreases on a usage report.
pub proof fn law_same_day_usage_accumulates(recs: Seq<LogRecord>, rec: LogRecord, day: Seq<char>, t: u64)
    requires
        utc_day_spec(rec.ts) == day,
        rec.event matches LogEvent::TokenUsageReported { tokens, .. } && tokens == t,
    ensures
        ({
            let before = cost_window(recs, day);
            let after = cost_window(recs.push(rec), day);
            &&& before.0 + t <= u64::MAX ==> after.0 == before.0 + t
            &&& before.0 + t > u64::MAX ==> after.0 == u64::MAX
            &&& after.0 >= before.0
            &&& after.1 == before.1
        }),
{
    assert(recs.push(rec).drop_last() =~= recs);
}

/// The revisit count of the tight-loop guard is directed: routing the reverse hop `b → a` never
/// counts as a repetition of `a → b`, while routing `a → b` again counts exactly once more.
pub proof fn law_revisits_are_directed(edges: Seq<(NodeId, NodeId)>, a: NodeId, b: NodeId)
    requires
        a != b,
    ensures
        edge_count(edges.push((b, a)), a, b) == edge_count(edges, a, b),
        edge_count(edges.push((a, b)), a, b) == edge_count(edges, a, b) + 1,
{
    assert(edges.push((b, a)).drop_last() =~= edges);
    assert(edges.push((a, b)).drop_last() =~= edges);
}

/// The delegation budget (and the autonomy and cost gates) bind only delegations: a message
/// whose intent is not a delegation (a status report, a handshake) is never refused by them.
pub proof fn law_budget_binds_only_delegations(
    v: RouterView,
    sender: NodeId,
    root: Seq<char>,
    hops: u8,
    intent: Seq<char>,
    is_broadcast: bool,
    targets: usize,
    tokens: u64,
    paused: bool,
)
    requires
        !delegation_intent(intent),
    ensures
        ({
            let g = gate_spec(v, sender, root, hops, intent, is_broadcast, targets, tokens, paused);
            &&& g != Gate::BudgetExceeded
            &&& g != Gate::BlockedByAutonomy
            &&& !(g is CostCeiling)
        }),
{
}

/// A same-day ceiling hit pauses the workspace and keeps the day's usage.
pub proof fn law_ceiling_hit_pauses(recs: Seq<LogRecord>, rec: LogRecord, day: Seq<char>)
    requires
        utc_day_spec(rec.ts) == day,
        rec.event is CostCeilingHit,
    ensures
        cost_window(recs.push(rec), day) == (cost_window(recs, day).0, true),
{
    assert(recs.push(rec).drop_last() =~= recs);
}

/// The daily ceiling and the budget bite exactly at their limits: with the ceiling on, a
/// delegation that passed the earlier gates is stopped (`hit`) once the day's usage reaches the
/// ceiling and not before, and the budget never refuses a `(root, sender)` below its count.
pub proof fn law_limits_bite_at_their_bounds(
    v: RouterView,
    sender: NodeId,
    root: Seq<char>,
    hops: u8,
    intent: Seq<char>,
    targets: usize,
    tokens: u64,
)
    requires
        hops <= v.config.max_depth,
        targets >= 1,
        v.config.autonomy != AutonomyLevel::Manual,
        delegation_intent(intent),
    ensures
        v.config.token_budget_day > 0 && tokens >= v.config.token_budget_day ==> gate_spec(
            v,
            sender,
            root,
            hops,
            intent,
            false,
            targets,
            tokens,
            false,
        ) == (Gate::CostCeiling { hit: true }),
        tokens < v.config.token_budget_day || v.config.token_budget_day == 0 ==> !(gate_spec(
            v,
            sender,
            root,
            hops,
            intent,
            false,
            targets,
            tokens,
            false,
        ) is CostCeiling),
        budget_count(v, root, sender) < v.config.delegation_budget ==> gate_spec(
            v,
            sender,
            root,
            hops,
            intent,
            false,
            targets,
            tokens,
            false,
        ) != Gate::BudgetExceeded,
{
}

} // verus!
