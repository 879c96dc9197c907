//! The supervision core of a multi-agent LLM orchestrator: a registry of
//! child agents with capacity and depth gates, per-agent mailboxes, an
//! escalation queue for questions to the user, a cycle-checked task graph
//! with auto-dispatch, todo lists, tool-call loop detection, and an
//! incremental JSON object stream parser.
pub mod declarations;
pub mod escalation;
pub mod handler;
pub mod mailbox;
pub mod modes;
pub mod stream;
pub mod supervisor;
pub mod taskqueue;
pub mod text;
pub mod todo;
pub mod tools;
pub mod turns;
