//! Core decision logic of the Lina workspace supervisor: the deterministic skill selector and
//! skill factory, the per-panel scrollback window, and the guardrails of the A2A router.

pub mod text;
pub mod skill_index;
pub mod skill_factory;
pub mod scrollback;
pub mod table;
pub mod router;
