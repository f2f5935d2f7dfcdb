//! One indexed side-channel value a task has produced.
//!
//! A cell mirrors the output contract for side outputs: reads register the
//! reader as a dependent, and every replacement of the content notifies the
//! dependents.

use vstd::prelude::*;
use crate::auto_set::AutoSet;
use crate::handle::{ContentId, TaskId};
use crate::output::ReadError;

verus! {

/// An indexed side output of a task, with the set of tasks that read it.
pub struct Cell {
    pub content: Option<ContentId>,
    pub updates: u32,
    pub dependent_tasks: AutoSet<TaskId>,
}

impl Cell {
    pub open spec fn wf(&self) -> bool {
        self.dependent_tasks.wf()
    }

    pub fn new() -> (r: Self)
        ensures
            r.wf(),
            r.content == Option::<ContentId>::None,
            r.updates == 0,
            r.dependent_tasks@ == Set::<TaskId>::empty(),
    {
        Cell { content: None, updates: 0, dependent_tasks: AutoSet::new() }
    }

    /// Registers `reader` as a dependent, then reads the current content.
    /// Reading a cell no execution has filled yet is an error.
    pub fn read(&mut self, reader: TaskId) -> (r: Result<ContentId, ReadError>)
        requires
            old(self).wf(),
        ensures
            final(self).wf(),
            final(self).content == old(self).content,
            final(self).updates == old(self).updates,
            final(self).dependent_tasks@ == old(self).dependent_tasks@.insert(reader),
            r == match old(self).content {
                Some(c) => Result::<ContentId, ReadError>::Ok(c),
                None => Result::<ContentId, ReadError>::Err(ReadError::Empty),
            },
    {
        self.dependent_tasks.insert(reader);
        match self.content {
            Some(c) => Ok(c),
            None => Err(ReadError::Empty),
        }
    }

    /// Registers `reader` as a dependent without reading.
    pub fn track_read(&mut self, reader: TaskId)
        requires
            old(self).wf(),
        ensures
            final(self).wf(),
            final(self).content == old(self).content,
            final(self).updates == old(self).updates,
            final(self).dependent_tasks@ == old(self).dependent_tasks@.insert(reader),
    {
        self.dependent_tasks.insert(reader);
    }

    /// Replaces the content, bumps the update counter, and returns the
    /// dependents to notify, if there are any.
    pub fn assign(&mut self, content: ContentId) -> (notify: Option<Vec<TaskId>>)
        requires
            old(self).wf(),
        ensures
            final(self).wf(),
            final(self).dependent_tasks@ == old(self).dependent_tasks@,
            final(self).content == Some(content),
            final(self).updates == (if old(self).updates == u32::MAX {
                0u32
            } else {
                (old(self).updates + 1) as u32
            }),
            notify matches Some(v) ==> v@.to_set() == old(self).dependent_tasks@,
            (notify matches Some(v)) <==> old(self).dependent_tasks@.len() != 0,
    {
        self.content = Some(content);
        self.updates = self.updates.wrapping_add(1);
        if !self.dependent_tasks.is_empty() {
            let v = self.dependent_tasks.to_vec();
            proof {
                self.dependent_tasks.lemma_view_is_elems_set();
            }
            Some(v)
        } else {
            None
        }
    }
}

} // verus!
