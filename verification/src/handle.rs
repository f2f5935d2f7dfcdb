//! Identifiers and value handles.
//!
//! Tasks, scopes and cells are named by dense, monotonically issued indices
//! into the backend's tables.  A [`ValueHandle`] is an opaque reference to
//! either the primary output slot of a task or one of its indexed cells.

use vstd::prelude::*;
use crate::auto_set::SetKey;

verus! {

/// Index of a task in the backend's task table.
pub type TaskId = usize;

/// Index of a scope in the backend's scope table.
pub type ScopeId = usize;

/// Index of a cell among the cells a task has created.
pub type CellId = usize;

/// Identifier of a registered native function.
pub type FunctionId = usize;

/// Identifier of a registered trait type.
pub type TraitTypeId = usize;

/// Token standing for one captured user error, shared by all dependents.
pub type ErrorId = usize;

/// Token standing for one stored cell content value.
pub type ContentId = usize;

/// A reference to a value a task has produced: its primary output, or one of
/// its indexed side-channel cells.
#[derive(Clone, Copy, PartialEq, Eq, Structural, Debug)]
pub enum ValueHandle {
    TaskOutput(TaskId),
    TaskCell(TaskId, CellId),
}

impl ValueHandle {
    /// The task this handle points into.
    pub open spec fn spec_task_id(self) -> TaskId {
        match self {
            ValueHandle::TaskOutput(t) => t,
            ValueHandle::TaskCell(t, _) => t,
        }
    }

    /// The task this handle points into.
    pub fn get_task_id(&self) -> (r: TaskId)
        ensures
            r == self.spec_task_id(),
    {
        match self {
            ValueHandle::TaskOutput(t) => *t,
            ValueHandle::TaskCell(t, _) => *t,
        }
    }
}

impl SetKey for ValueHandle {
    fn key_eq(&self, other: &Self) -> (r: bool) {
        *self == *other
    }
}

/// One argument of a task: a handle to another task's value, or a plain
/// literal token.
#[derive(Clone, Copy, PartialEq, Eq, Structural, Debug)]
pub enum TaskInput {
    Handle(ValueHandle),
    Literal(usize),
}

impl TaskInput {
    /// The task this input references, if it references one.
    pub open spec fn spec_get_task_id(self) -> Option<TaskId> {
        match self {
            TaskInput::Handle(h) => Some(h.spec_task_id()),
            TaskInput::Literal(_) => None,
        }
    }

    /// The task this input references, if it references one.
    pub fn get_task_id(&self) -> (r: Option<TaskId>)
        ensures
            r == self.spec_get_task_id(),
    {
        match self {
            TaskInput::Handle(h) => Some(h.get_task_id()),
            TaskInput::Literal(_) => None,
        }
    }
}

} // verus!
