//! A task manager whose tasks form a dependency graph: a task is workable
//! once every task it depends on is completed.
//!
//! - `document`: the store of tasks, priority weights and category styles;
//!   id allocation, upsert and removal with their undo events, status
//!   derivation, the cycle check and relation queries.
//! - `graph`: the dependency graph as the contracts see it, reachability,
//!   and why checked edges keep it free of cycles.
//! - `item`, `time_tracking`: a task and its time log.
//! - `undo`, `session`: the bounded undo log and how user intents change a
//!   session.
//! - `document_layout`, `queue_view`, `search`, `focused_layout`,
//!   `tree_outline_layout`, `filter`, `sorting`, `ordering`: the views that
//!   presentation reads, each rebuilt from the document on demand.
//! - `priority_editor`, `recents`, `text`: small helpers.
pub mod document;
pub mod document_layout;
pub mod filter;
pub mod focused_layout;
pub mod graph;
pub mod item;
pub mod ordering;
pub mod priority_editor;
pub mod queue_view;
pub mod recents;
pub mod search;
pub mod session;
pub mod sorting;
pub mod text;
pub mod time_tracking;
pub mod tree_outline_layout;
pub mod undo;
