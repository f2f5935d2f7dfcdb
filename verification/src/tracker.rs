//! The per-execution dependency tracker.
//!
//! While a task body runs, every value handle it reads is recorded here; on
//! completion the recorded set is installed as the task's dependencies.  The
//! tracker also hands out invalidators bound to the running task.

use vstd::prelude::*;
use crate::auto_set::AutoSet;
use crate::handle::{TaskId, ValueHandle};

verus! {

/// A token that, when fired, invalidates the task it was created for.
#[derive(Clone, Copy, PartialEq, Eq, Structural, Debug)]
pub struct Invalidator {
    pub task: TaskId,
}

/// Records the value handles read during one execution of one task.
pub struct ExecutionTracker {
    /// The task whose body is running.
    pub current: TaskId,
    /// The value handles read so far.
    pub dependencies: AutoSet<ValueHandle>,
}

impl ExecutionTracker {
    pub open spec fn wf(&self) -> bool {
        self.dependencies.wf()
    }

    pub fn new(current: TaskId) -> (r: Self)
        ensures
            r.wf(),
            r.current == current,
            r.dependencies@ == Set::<ValueHandle>::empty(),
    {
        ExecutionTracker { current, dependencies: AutoSet::new() }
    }

    /// Records that the running task read `dep`.
    pub fn add_dependency_to_current(&mut self, dep: ValueHandle)
        requires
            old(self).wf(),
        ensures
            final(self).wf(),
            final(self).current == old(self).current,
            final(self).dependencies@ == old(self).dependencies@.insert(dep),
    {
        self.dependencies.insert(dep);
    }

    /// An invalidator bound to the running task: firing it later marks that
    /// task dirty.
    pub fn get_invalidator(&self) -> (r: Invalidator)
        ensures
            r.task == self.current,
    {
        Invalidator { task: self.current }
    }

    /// Drains the recorded handles for installation at execution completion.
    pub fn take_dependencies(&mut self) -> (r: Vec<ValueHandle>)
        requires
            old(self).wf(),
        ensures
            final(self).wf(),
            final(self).current == old(self).current,
            final(self).dependencies@ == Set::<ValueHandle>::empty(),
            r@.to_set() == old(self).dependencies@,
    {
        let r = self.dependencies.to_vec();
        self.dependencies.clear();
        proof {
            old(self).dependencies.lemma_view_is_elems_set();
        }
        r
    }
}

} // verus!
