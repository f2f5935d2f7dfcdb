//! Core of an incremental, demand-driven task engine.
//!
//! The engine memoizes computations ("tasks"), tracks the value handles each
//! task read during its execution, and re-executes only the affected tasks
//! when an input changes.  Hierarchical "scopes" aggregate activity and
//! unfinished-task counts over subgraphs of tasks, so that "is this subtree
//! observed?" is a cheap local test.
//!
//! All state is held in plain owned data.  Operations that the surrounding
//! runtime must perform (running a task body, waking waiters, executing a
//! queued background job) are returned as action values; the caller performs
//! them and feeds results back in.

pub mod auto_set;
pub mod handle;
pub mod output;
pub mod cell;
pub mod scope;
pub mod task;
pub mod backend;
pub mod lifecycle;
pub mod scope_ops;
pub mod tracker;
pub mod laws;
