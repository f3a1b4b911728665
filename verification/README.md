# lina_core

The decision core of the Lina workspace supervisor, written in Verus and verified:

- `src/router.rs` — the A2A router's guardrails: dedupe window, the orchestration brake,
  effective chain root/hops from delivery bindings (never from message fields), depth, autonomy,
  fan-out and budget gates, the daily token ceiling rebuilt from the log, retention behind a busy
  target, delivery retries with exponential backoff and deterministic jitter, circuit breakers,
  authenticated await closing, the tight-loop guard over the handoff graph, the spawn gate, the
  swallowed-dispatch watch, the redelivery engine's decisions, the checks of the goal and effort
  verbs, the goal's outer loop (verdict step, effort escalation and its sticky breaker), and the
  log projections the pump reads after a restart. Laws of these guardrails are stated as `law_*`
  proof functions at the end of the file.
- `src/scrollback.rs` — the per-panel RAM window over the on-disk scrollback (write-behind batches,
  eviction that never drops an unpersisted line, range plans, retention floors).
- `src/skill_index.rs`, `src/skill_factory.rs` — the deterministic skill selector, task kinds,
  selection ids, the outcome tally replayed from the log, and SKILL.md frontmatter parsing; the
  skill factory's format checks.
- `src/table.rs`, `src/text.rs` — the small verified containers and text utilities they share.

The library decides; it does not drive. The pipeline's orchestration (draining the mailbox, the
loop of `pump` and the drain after a resume, resolving names in the roster, validating
envelopes, writing the event log and injecting into terminals) is not in this crate; nor is the
plan itself (claims, checks, attribution, seeding, the rendered `plan.md`) or the
code-integration model behind the automatic integrator. For the rest the library holds the
decision that the orchestration calls: the dispatch order, the guardrails, the redelivery engine
and the ledger; the decoding of the structured verbs' JSON payloads; the checks, stamps and
events of the goal, params and effort verbs; the checks of spawn, plan.add, code.changed and
branch.integrated (with the decoded `plan.add` request and the owners a `code.changed` warns);
and the correction event.

`app/` holds what is not verified: SQLite persistence and the durability coordinator of the
scrollback, the session store, the floating-point skill ranking, serde forms, and the decoding of
event-log records into the router's model.
