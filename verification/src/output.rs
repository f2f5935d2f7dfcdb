//! The primary result slot of a task.
//!
//! An output is empty, links to a value handle, or carries a captured user
//! error.  Every replacement bumps the update counter and asks the runtime to
//! notify the dependent tasks; linking the currently linked handle is a no-op
//! and notifies nobody.

use vstd::prelude::*;
use crate::auto_set::AutoSet;
use crate::handle::{ErrorId, TaskId, ValueHandle};

verus! {

/// What an output currently holds.
#[derive(Clone, Copy, PartialEq, Eq, Structural, Debug)]
pub enum OutputContent {
    Empty,
    Link(ValueHandle),
    Error(ErrorId),
}

/// Why a read of an output (or cell) could not produce a handle.
#[derive(Clone, Copy, PartialEq, Eq, Structural, Debug)]
pub enum ReadError {
    /// No execution has produced a value yet.
    Empty,
    /// The producing execution failed; the error is shared with every reader.
    UserError(ErrorId),
}

/// Whether a `link(target)` call replaces content `c`.
pub open spec fn spec_link_changes(c: OutputContent, target: ValueHandle) -> bool {
    c != OutputContent::Link(target)
}

/// The content after a `link(target)` call on content `c`.
pub open spec fn spec_link_content(c: OutputContent, target: ValueHandle) -> OutputContent {
    if spec_link_changes(c, target) {
        OutputContent::Link(target)
    } else {
        c
    }
}

/// Linking the same handle twice replaces the content exactly once: the
/// second call always finds the handle already linked, and the first call
/// replaces whenever the handle was not linked before.  Since a replacement
/// is what dispatches a notification, two equal links dispatch exactly one
/// notification to a non-empty dependent set.
pub proof fn lemma_equal_link_replaces_once(c: OutputContent, target: ValueHandle)
    ensures
        !spec_link_changes(spec_link_content(c, target), target),
        c != OutputContent::Link(target) ==> spec_link_changes(c, target),
{
}

impl Default for OutputContent {
    fn default() -> (r: Self)
        ensures
            r == OutputContent::Empty,
    {
        OutputContent::Empty
    }
}

/// The primary result slot of a task, with the set of tasks that read it.
pub struct Output {
    pub content: OutputContent,
    pub updates: u32,
    pub dependent_tasks: AutoSet<TaskId>,
}

impl Output {
    pub open spec fn wf(&self) -> bool {
        self.dependent_tasks.wf()
    }

    pub fn new() -> (r: Self)
        ensures
            r.wf(),
            r.content == OutputContent::Empty,
            r.updates == 0,
            r.dependent_tasks@ == Set::<TaskId>::empty(),
    {
        Output { content: OutputContent::Empty, updates: 0, dependent_tasks: AutoSet::new() }
    }

    /// Registers `reader` as a dependent, then reads the current content.
    pub fn read(&mut self, reader: TaskId) -> (r: Result<ValueHandle, ReadError>)
        requires
            old(self).wf(),
        ensures
            final(self).wf(),
            final(self).content == old(self).content,
            final(self).updates == old(self).updates,
            final(self).dependent_tasks@ == old(self).dependent_tasks@.insert(reader),
            r == spec_read(old(self).content),
    {
        self.dependent_tasks.insert(reader);
        self.read_untracked()
    }

    /// Reads the current content without registering a dependent.
    pub fn read_untracked(&self) -> (r: Result<ValueHandle, ReadError>)
        ensures
            r == spec_read(self.content),
    {
        match self.content {
            OutputContent::Empty => Err(ReadError::Empty),
            OutputContent::Error(err) => Err(ReadError::UserError(err)),
            OutputContent::Link(handle) => Ok(handle),
        }
    }

    /// Registers `reader` as a dependent without reading.
    pub fn track_read(&mut self, reader: TaskId)
        requires
            old(self).wf(),
        ensures
            final(self).wf(),
            final(self).content == old(self).content,
            final(self).updates == old(self).updates,
            final(self).dependent_tasks@ == old(self).dependent_tasks@.insert(reader),
    {
        self.dependent_tasks.insert(reader);
    }

    /// Links `target` as the new content.  A link equal to the current one is
    /// a no-op; otherwise the content is replaced and the dependents to
    /// notify are returned.
    pub fn link(&mut self, target: ValueHandle) -> (notify: Option<Vec<TaskId>>)
        requires
            old(self).wf(),
        ensures
            final(self).wf(),
            final(self).dependent_tasks@ == old(self).dependent_tasks@,
            final(self).content == spec_link_content(old(self).content, target),
            !spec_link_changes(old(self).content, target) ==> *final(self) == *old(self)
                && notify == Option::<Vec<TaskId>>::None,
            spec_link_changes(old(self).content, target) ==> final(self).updates
                == (if old(self).updates == u32::MAX { 0u32 } else { (old(self).updates + 1) as u32 }),
            notify matches Some(v) ==> v@.to_set() == old(self).dependent_tasks@,
            (notify matches Some(v)) <==> (spec_link_changes(old(self).content, target) && old(
                self,
            ).dependent_tasks@.len() != 0),
    {
        let changed: bool = match &self.content {
            OutputContent::Link(old_target) => *old_target != target,
            OutputContent::Empty | OutputContent::Error(_) => true,
        };
        if changed {
            self.assign(OutputContent::Link(target))
        } else {
            None
        }
    }

    /// Captures a user error as the new content, replacing unconditionally.
    pub fn error(&mut self, error: ErrorId) -> (notify: Option<Vec<TaskId>>)
        requires
            old(self).wf(),
        ensures
            final(self).wf(),
            final(self).dependent_tasks@ == old(self).dependent_tasks@,
            final(self).content == OutputContent::Error(error),
            final(self).updates == (if old(self).updates == u32::MAX { 0u32 } else { (old(self).updates + 1) as u32 }),
            notify matches Some(v) ==> v@.to_set() == old(self).dependent_tasks@,
            (notify matches Some(v)) <==> old(self).dependent_tasks@.len() != 0,
    {
        self.assign(OutputContent::Error(error))
    }

    /// Replaces the content unconditionally, bumps the update counter, and
    /// returns the dependents to notify, if there are any.
    pub fn assign(&mut self, content: OutputContent) -> (notify: Option<Vec<TaskId>>)
        requires
            old(self).wf(),
        ensures
            final(self).wf(),
            final(self).dependent_tasks@ == old(self).dependent_tasks@,
            final(self).content == content,
            final(self).updates == (if old(self).updates == u32::MAX { 0u32 } else { (old(self).updates + 1) as u32 }),
            notify matches Some(v) ==> v@.to_set() == old(self).dependent_tasks@,
            (notify matches Some(v)) <==> old(self).dependent_tasks@.len() != 0,
    {
        self.content = content;
        self.updates = self.updates.wrapping_add(1);
        if !self.dependent_tasks.is_empty() {
            let v = self.dependent_tasks.to_vec();
            proof {
                self.dependent_tasks.lemma_view_is_elems_set();
            }
            Some(v)
        } else {
            None
        }
    }
}

/// What a read returns for content `c`.
pub open spec fn spec_read(c: OutputContent) -> Result<ValueHandle, ReadError> {
    match c {
        OutputContent::Empty => Err(ReadError::Empty),
        OutputContent::Error(err) => Err(ReadError::UserError(err)),
        OutputContent::Link(handle) => Ok(handle),
    }
}

} // verus!
