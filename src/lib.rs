//! Client-side core of a workflow-execution observability UI: per-execution
//! event stores fed by paginated fetches, join-set correlation, ancestry and
//! step navigation for the debugger, backtrace and source caches, and the
//! trace tree of an execution and its children.

pub mod color;
pub mod text;
pub mod ids;
pub mod events;
pub mod pagination;
pub mod store;
pub mod join;
pub mod version_path;
pub mod debugger;
pub mod backtrace;
pub mod trace;
pub mod time;
pub mod tasks;
