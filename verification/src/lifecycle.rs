//! The task lifecycle: execution protocol, invalidation, and reads.
//!
//! Every operation returns the actions the runtime must perform; nothing
//! here blocks or runs task bodies.

use vstd::prelude::*;
use crate::backend::{
    lemma_wf_after_task_update, valid_scope, valid_task, Action, Job, Listener, MemoryBackend,
};
use crate::handle::{CellId, ErrorId, ScopeId, TaskId, ValueHandle};
use crate::output::{spec_link_changes, spec_link_content, OutputContent, ReadError};
use crate::scope::{spec_dec, spec_inc};
use crate::task::{CellMappings, Task, TaskScopes, TaskStateType, TaskType};

verus! {

/// Two task values that agree on everything except the dependency
/// bookkeeping: the tracked dependencies and the dependent sets of the
/// output and the cells.
pub open spec fn same_but_backedges(a: Task, b: Task) -> bool {
    &&& b.id == a.id
    &&& b.inputs == a.inputs
    &&& b.ty == a.ty
    &&& b.scopes == a.scopes
    &&& b.state_type == a.state_type
    &&& b.children == a.children
    &&& b.executions == a.executions
    &&& b.total_duration == a.total_duration
    &&& b.cell_mappings == a.cell_mappings
    &&& b.output.content == a.output.content
    &&& b.output.updates == a.output.updates
    &&& b.created_cells@.len() == a.created_cells@.len()
    &&& forall|i: int|
        0 <= i < a.created_cells@.len() ==> (#[trigger] b.created_cells@[i]).content
            == a.created_cells@[i].content && b.created_cells@[i].updates
            == a.created_cells@[i].updates
}

impl MemoryBackend {
    /// Drops the back-edge from `dep`'s producer to `reader`: `reader` no
    /// longer depends on that output or cell.
    pub fn remove_dependent_task(&mut self, dep: ValueHandle, reader: TaskId)
        requires
            old(self).wf(),
            dep.spec_task_id() < old(self).spec_num_tasks(),
        ensures
            final(self).wf(),
            final(self).scopes@ == old(self).scopes@,
            final(self).tasks@.len() == old(self).tasks@.len(),
            forall|i: int|
                0 <= i < old(self).tasks@.len() && i != dep.spec_task_id() ==> final(self).tasks@[i] == old(self).tasks@[i],
            same_but_backedges(
                old(self).spec_task(dep.spec_task_id()),
                final(self).spec_task(dep.spec_task_id()),
            ),
            forall|i: int|
                0 <= i < old(self).tasks@.len() ==> (#[trigger] final(self).tasks@[i]).dependencies
                    == old(self).tasks@[i].dependencies,
            dep matches ValueHandle::TaskOutput(t) ==> final(self).spec_task(
                t,
            ).output.dependent_tasks@ == old(self).spec_task(t).output.dependent_tasks@.remove(
                reader,
            ),
            dep matches ValueHandle::TaskCell(t, i) ==> forall|j: int|
                0 <= j < old(self).tasks@.len() ==> (#[trigger] final(self).tasks@[j]).output
                    == old(self).tasks@[j].output,
            dep matches ValueHandle::TaskOutput(t) ==> forall|j: int|
                0 <= j < old(self).tasks@.len() ==> (#[trigger] final(self).tasks@[j]).created_cells == old(self).tasks@[j].created_cells,
            dep matches ValueHandle::TaskCell(t, ci) ==> (final(self).spec_task(
                t,
            ).created_cells@.len() == old(self).spec_task(t).created_cells@.len() && forall|
                j: int,
            |
                0 <= j < old(self).spec_task(t).created_cells@.len() ==> (#[trigger] final(self).spec_task(t).created_cells@[j]).dependent_tasks@ == (if j == ci {
                    old(self).spec_task(t).created_cells@[j].dependent_tasks@.remove(reader)
                } else {
                    old(self).spec_task(t).created_cells@[j].dependent_tasks@
                })),
    {
        match dep {
            ValueHandle::TaskOutput(task) => {
                let t = &mut self.tasks[task];
                t.output.dependent_tasks.remove(&reader);
                proof {
                    lemma_wf_after_task_update(*old(self), *self, task);
                }
            }
            ValueHandle::TaskCell(task, index) => {
                let t = &mut self.tasks[task];
                if index < t.created_cells.len() {
                    let c = &mut t.created_cells[index];
                    c.dependent_tasks.remove(&reader);
                }
                proof {
                    lemma_wf_after_task_update(*old(self), *self, task);
                    assert forall|j: int|
                        0 <= j < old(self).spec_task(task).created_cells@.len() implies (
                    #[trigger] self.spec_task(task).created_cells@[j]).dependent_tasks@ == (if j
                        == index as int {
                        old(self).spec_task(task).created_cells@[j].dependent_tasks@.remove(
                            reader,
                        )
                    } else {
                        old(self).spec_task(task).created_cells@[j].dependent_tasks@
                    }) by {
                        if j != index as int || index >= old(self).spec_task(
                            task,
                        ).created_cells@.len() {
                            assert(self.spec_task(task).created_cells@[j] == old(self).spec_task(
                                task,
                            ).created_cells@[j]);
                        }
                    }
                }
            }
        }
    }

    /// Forgets every dependency the task tracked, removing the matching
    /// back-edges from the producers it read.
    pub fn clear_dependencies(&mut self, id: TaskId)
        requires
            old(self).wf(),
            id < old(self).spec_num_tasks(),
        ensures
            final(self).wf(),
            final(self).scopes@ == old(self).scopes@,
            final(self).tasks@.len() == old(self).tasks@.len(),
            forall|i: int|
                0 <= i < old(self).tasks@.len() ==> same_but_backedges(
                    old(self).tasks@[i],
                    #[trigger] final(self).tasks@[i],
                ),
            final(self).spec_task(id).dependencies@ == Set::<ValueHandle>::empty(),
            forall|i: int|
                0 <= i < old(self).tasks@.len() && i != id ==> (#[trigger] final(self).tasks@[i]).dependencies == old(self).tasks@[i].dependencies,
            forall|j: int|
                0 <= j < old(self).tasks@.len() ==> (#[trigger] final(self).tasks@[j]).output.dependent_tasks@
                    == (if old(self).spec_task(id).dependencies@.contains(
                    ValueHandle::TaskOutput(j as TaskId),
                ) {
                    old(self).tasks@[j].output.dependent_tasks@.remove(id)
                } else {
                    old(self).tasks@[j].output.dependent_tasks@
                }),
            forall|j: TaskId, ci: CellId|
                j < old(self).tasks@.len() && ci < old(self).tasks@[j as int].created_cells@.len()
                    ==> (#[trigger] final(self).tasks@[j as int].created_cells@[ci as int]).dependent_tasks@
                    == (if old(self).spec_task(id).dependencies@.contains(
                    ValueHandle::TaskCell(j, ci),
                ) {
                    old(self).tasks@[j as int].created_cells@[ci as int].dependent_tasks@.remove(
                        id,
                    )
                } else {
                    old(self).tasks@[j as int].created_cells@[ci as int].dependent_tasks@
                }),
    {
        let deps = {
            let t = &mut self.tasks[id];
            let d = t.dependencies.to_vec();
            t.dependencies.clear();
            d
        };
        proof {
            lemma_wf_after_task_update(*old(self), *self, id);
            old(self).spec_task(id).dependencies.lemma_view_is_elems_set();
            old(self).spec_task(id).dependencies.lemma_wf_elems_no_duplicates();
            assert(valid_task(
                old(self).tasks@[id as int],
                old(self).spec_num_tasks(),
                old(self).spec_num_scopes(),
            ));
            assert forall|k: int| 0 <= k < deps@.len() implies (#[trigger] deps@[k]).spec_task_id()
                < old(self).spec_num_tasks() by {
                assert(old(self).spec_task(id).dependencies.elems().contains(deps@[k]));
                assert(old(self).spec_task(id).dependencies@.contains(deps@[k]));
            }
        }
        let ghost mid = *self;
        let mut i: usize = 0;
        while i < deps.len()
            invariant
                i <= deps@.len(),
                self.wf(),
                id < mid.tasks@.len(),
                self.scopes@ == mid.scopes@,
                self.tasks@.len() == mid.tasks@.len(),
                forall|k: int|
                    0 <= k < deps@.len() ==> (#[trigger] deps@[k]).spec_task_id()
                        < mid.tasks@.len(),
                forall|j: int|
                    0 <= j < mid.tasks@.len() ==> same_but_backedges(
                        mid.tasks@[j],
                        #[trigger] self.tasks@[j],
                    ),
                self.spec_task(id).dependencies@ == Set::<ValueHandle>::empty(),
                forall|j: int|
                    0 <= j < mid.tasks@.len() && j != id ==> (#[trigger] self.tasks@[j]).dependencies
                        == mid.tasks@[j].dependencies,
                deps@.no_duplicates(),
                deps@.to_set() == old(self).spec_task(id).dependencies@,
                forall|j: int|
                    0 <= j < mid.tasks@.len() ==> (#[trigger] self.tasks@[j]).output.dependent_tasks@
                        == (if deps@.take(i as int).contains(ValueHandle::TaskOutput(j as TaskId)) {
                        mid.tasks@[j].output.dependent_tasks@.remove(id)
                    } else {
                        mid.tasks@[j].output.dependent_tasks@
                    }),
                forall|j: TaskId, ci: CellId|
                    j < mid.tasks@.len() && ci < mid.tasks@[j as int].created_cells@.len() ==> (
                    #[trigger] self.tasks@[j as int].created_cells@[ci as int]).dependent_tasks@
                        == (if deps@.take(i as int).contains(ValueHandle::TaskCell(j, ci)) {
                        mid.tasks@[j as int].created_cells@[ci as int].dependent_tasks@.remove(id)
                    } else {
                        mid.tasks@[j as int].created_cells@[ci as int].dependent_tasks@
                    }),
            decreases deps@.len() - i,
        {
            let ghost pre = *self;
            self.remove_dependent_task(deps[i], id);
            proof {
                assert(self.tasks@[id as int].dependencies == pre.tasks@[id as int].dependencies);
                assert(deps@.take(i + 1 as int) =~= deps@.take(i as int).push(deps@[i as int]));
                assert forall|j: int| 0 <= j < mid.tasks@.len() implies (
                #[trigger] self.tasks@[j]).output.dependent_tasks@ == (if deps@.take(
                    i + 1 as int,
                ).contains(ValueHandle::TaskOutput(j as TaskId)) {
                    mid.tasks@[j].output.dependent_tasks@.remove(id)
                } else {
                    mid.tasks@[j].output.dependent_tasks@
                }) by {
                    lemma_push_contains(
                        deps@.take(i as int),
                        deps@[i as int],
                        ValueHandle::TaskOutput(j as TaskId),
                    );
                    match deps@[i as int] {
                        ValueHandle::TaskOutput(t) => {
                            if j == t {
                                assert(!deps@.take(i as int).contains(
                                    ValueHandle::TaskOutput(j as TaskId),
                                )) by {
                                    if deps@.take(i as int).contains(
                                        ValueHandle::TaskOutput(j as TaskId),
                                    ) {
                                        let k = choose|k: int|
                                            0 <= k < i && deps@.take(i as int)[k]
                                                == ValueHandle::TaskOutput(j as TaskId);
                                        assert(deps@[k] == deps@[i as int]);
                                    }
                                }
                                assert(self.tasks@[j].output.dependent_tasks@ == pre.tasks@[
                                    j
                                ].output.dependent_tasks@.remove(id));
                            } else {
                                assert(self.tasks@[j] == pre.tasks@[j]);
                            }
                        }
                        ValueHandle::TaskCell(_, _) => {
                            assert(self.tasks@[j].output == pre.tasks@[j].output);
                        }
                    }
                }
                assert forall|j: TaskId, ci: CellId|
                    j < mid.tasks@.len() && ci
                        < mid.tasks@[j as int].created_cells@.len() implies (
                #[trigger] self.tasks@[j as int].created_cells@[ci as int]).dependent_tasks@ == (
                if deps@.take(i + 1 as int).contains(ValueHandle::TaskCell(j, ci)) {
                    mid.tasks@[j as int].created_cells@[ci as int].dependent_tasks@.remove(id)
                } else {
                    mid.tasks@[j as int].created_cells@[ci as int].dependent_tasks@
                }) by {
                    lemma_push_contains(
                        deps@.take(i as int),
                        deps@[i as int],
                        ValueHandle::TaskCell(j, ci),
                    );
                    match deps@[i as int] {
                        ValueHandle::TaskCell(t, x) => {
                            if j == t && ci == x {
                                assert(!deps@.take(i as int).contains(
                                    ValueHandle::TaskCell(j, ci),
                                )) by {
                                    if deps@.take(i as int).contains(
                                        ValueHandle::TaskCell(j, ci),
                                    ) {
                                        let k = choose|k: int|
                                            0 <= k < i && deps@.take(i as int)[k]
                                                == ValueHandle::TaskCell(j, ci);
                                        assert(deps@[k] == deps@[i as int]);
                                    }
                                }
                                assert(self.tasks@[j as int].created_cells@[ci as int].dependent_tasks@
                                    == pre.tasks@[j as int].created_cells@[ci as int].dependent_tasks@.remove(id));
                            } else if j == t {
                                assert(self.tasks@[j as int].created_cells@[ci as int].dependent_tasks@
                                    == pre.tasks@[j as int].created_cells@[ci as int].dependent_tasks@);
                            } else {
                                assert(self.tasks@[j as int] == pre.tasks@[j as int]);
                            }
                        }
                        ValueHandle::TaskOutput(_) => {
                            assert(self.tasks@[j as int].created_cells == pre.tasks@[j as int].created_cells);
                        }
                    }
                }
                assert forall|j: int| 0 <= j < mid.tasks@.len() implies same_but_backedges(
                    mid.tasks@[j],
                    #[trigger] self.tasks@[j],
                ) by {
                    assert(same_but_backedges(mid.tasks@[j], pre.tasks@[j]));
                    if j == deps@[i as int].spec_task_id() {
                        assert(same_but_backedges(pre.tasks@[j], self.tasks@[j]));
                    } else {
                        assert(self.tasks@[j] == pre.tasks@[j]);
                    }
                }
            }
            i += 1;
        }
        proof {
            assert(deps@.take(deps@.len() as int) =~= deps@);
            assert forall|j: int| 0 <= j < old(self).tasks@.len() implies (
            #[trigger] self.tasks@[j]).output.dependent_tasks@ == (if old(self).spec_task(
                id,
            ).dependencies@.contains(ValueHandle::TaskOutput(j as TaskId)) {
                old(self).tasks@[j].output.dependent_tasks@.remove(id)
            } else {
                old(self).tasks@[j].output.dependent_tasks@
            }) by {
                assert(mid.tasks@[j].output == old(self).tasks@[j].output);
                assert(deps@.contains(ValueHandle::TaskOutput(j as TaskId)) == deps@.to_set(
                ).contains(ValueHandle::TaskOutput(j as TaskId)));
            }
            assert forall|j: TaskId, ci: CellId|
                j < old(self).tasks@.len() && ci < old(self).tasks@[j as int].created_cells@.len() implies (
            #[trigger] self.tasks@[j as int].created_cells@[ci as int]).dependent_tasks@ == (
            if old(self).spec_task(id).dependencies@.contains(ValueHandle::TaskCell(j, ci)) {
                old(self).tasks@[j as int].created_cells@[ci as int].dependent_tasks@.remove(id)
            } else {
                old(self).tasks@[j as int].created_cells@[ci as int].dependent_tasks@
            }) by {
                assert(mid.tasks@[j as int].created_cells == old(self).tasks@[j as int].created_cells);
                assert(deps@.contains(ValueHandle::TaskCell(j, ci)) == deps@.to_set().contains(
                    ValueHandle::TaskCell(j, ci),
                ));
            }
        }
    }

    /// Marks the task as needing to run before the caller may use it: the
    /// precondition of starting an execution.  Returns false, changing
    /// nothing, when the task is already running or done; a Scheduled task
    /// moves to InProgress and its previous children are handed to a
    /// background job for removal from the scopes the task belongs to.
    pub fn execution_started(&mut self, id: TaskId, actions: &mut Vec<Action>) -> (r: bool)
        requires
            old(self).wf(),
            id < old(self).spec_num_tasks(),
            old(self).spec_task(id).state_type != TaskStateType::Dirty,
        ensures
            final(self).wf(),
            final(self).scopes@ == old(self).scopes@,
            final(self).tasks@.len() == old(self).tasks@.len(),
            r == (old(self).spec_task(id).state_type == TaskStateType::Scheduled),
            !r ==> final(self).tasks@ == old(self).tasks@ && final(actions)@ == old(actions)@,
            r ==> final(self).spec_task(id).state_type == TaskStateType::InProgress,
            r ==> final(self).spec_task(id).executions == spec_inc(
                old(self).spec_task(id).executions,
            ),
            r ==> final(self).spec_task(id).children@ == Set::<TaskId>::empty(),
            r ==> final(self).tasks@ == old(self).tasks@.update(
                id as int,
                final(self).spec_task(id),
            ),
            r ==> final(self).spec_task(id) == (Task {
                state_type: TaskStateType::InProgress,
                executions: final(self).spec_task(id).executions,
                children: final(self).spec_task(id).children,
                ..old(self).spec_task(id)
            }),
            crate::backend::actions_extended(old(actions)@, final(actions)@),
            r && old(self).spec_task(id).children.elems().len() == 0 ==> final(actions)@ == old(
                actions,
            )@,
            r && old(self).spec_task(id).children.elems().len() != 0 ==> final(actions)@.len()
                == old(actions)@.len() + 1,
            r && old(self).spec_task(id).children.elems().len() != 0 ==> (old(self).spec_task(
                id,
            ).scopes matches TaskScopes::Root(rt) ==> (final(actions)@.last() matches Action::BackgroundJob(Job::RemoveFromScope(c, s)) && c@ == old(self).spec_task(id).children.elems()
                && s == rt)),
            r && old(self).spec_task(id).children.elems().len() != 0 && old(self).spec_task(
                id,
            ).scopes.spec_is_inner() ==> (final(actions)@.last() matches Action::BackgroundJob(Job::RemoveFromScopes(c, s, f)) && c@ == old(self).spec_task(id).children.elems() && s@ == old(
                self,
            ).spec_task(id).scopes.spec_scopes() && f == false),
    {
        let scheduled = match self.tasks[id].state_type {
            TaskStateType::Scheduled => true,
            _ => false,
        };
        if !scheduled {
            return false;
        }
        let (children, scopes_vec) = {
            let t = &mut self.tasks[id];
            t.state_type = TaskStateType::InProgress;
            t.executions = t.executions.saturating_add(1);
            let children = t.children.to_vec();
            t.children.clear();
            let scopes_vec = t.scopes.to_vec();
            (children, scopes_vec)
        };
        proof {
            lemma_wf_after_task_update(*old(self), *self, id);
        }
        if children.len() != 0 {
            let is_root = self.tasks[id].scopes.is_root();
            if is_root {
                let root = scopes_vec[0];
                actions.push(Action::BackgroundJob(Job::RemoveFromScope(children, root)));
            } else {
                actions.push(
                    Action::BackgroundJob(Job::RemoveFromScopes(children, scopes_vec, false)),
                );
            }
        }
        true
    }

    /// Hands the result of a finished body to the task's output.  A task
    /// invalidated while running drops the result silently, so that stale
    /// values are never linked.
    pub fn execution_result(
        &mut self,
        id: TaskId,
        result: Result<ValueHandle, ErrorId>,
        actions: &mut Vec<Action>,
    )
        requires
            old(self).wf(),
            id < old(self).spec_num_tasks(),
            old(self).spec_task(id).state_type == TaskStateType::InProgress || old(self).spec_task(
                id,
            ).state_type == TaskStateType::InProgressDirty,
        ensures
            final(self).wf(),
            final(self).scopes@ == old(self).scopes@,
            final(self).tasks@.len() == old(self).tasks@.len(),
            old(self).spec_task(id).state_type == TaskStateType::InProgressDirty ==> final(self).tasks@ == old(self).tasks@ && final(actions)@ == old(actions)@,
            old(self).spec_task(id).state_type == TaskStateType::InProgress ==> final(self).tasks@ == old(self).tasks@.update(id as int, final(self).spec_task(id)) && final(self).spec_task(id) == (Task { output: final(self).spec_task(id).output, ..old(
                self,
            ).spec_task(id) }),
            old(self).spec_task(id).state_type == TaskStateType::InProgress ==> final(self).spec_task(id).output.content == (match result {
                Ok(h) => spec_link_content(old(self).spec_task(id).output.content, h),
                Err(e) => OutputContent::Error(e),
            }),
            old(self).spec_task(id).state_type == TaskStateType::InProgress ==> final(self).spec_task(id).output.dependent_tasks@ == old(self).spec_task(
                id,
            ).output.dependent_tasks@,
            old(self).spec_task(id).state_type == TaskStateType::InProgress ==> final(self).spec_task(id).output.updates == (if (match result {
                Ok(h) => spec_link_changes(old(self).spec_task(id).output.content, h),
                Err(_) => true,
            }) {
                (if old(self).spec_task(id).output.updates == u32::MAX {
                    0u32
                } else {
                    (old(self).spec_task(id).output.updates + 1) as u32
                })
            } else {
                old(self).spec_task(id).output.updates
            }),
            old(self).spec_task(id).state_type == TaskStateType::InProgress && (match result {
                Ok(h) => spec_link_changes(old(self).spec_task(id).output.content, h),
                Err(_) => true,
            }) && old(self).spec_task(id).output.dependent_tasks@.len() != 0 ==> (final(actions)@.len() == old(actions)@.len() + 1 && (final(actions)@.last() matches Action::NotifyTasks(v)
                && v@.to_set() == old(self).spec_task(id).output.dependent_tasks@)),
            old(self).spec_task(id).state_type == TaskStateType::InProgress && !((match result {
                Ok(h) => spec_link_changes(old(self).spec_task(id).output.content, h),
                Err(_) => true,
            }) && old(self).spec_task(id).output.dependent_tasks@.len() != 0) ==> final(actions)@
                == old(actions)@,
            crate::backend::actions_extended(old(actions)@, final(actions)@),
    {
        let in_progress = match self.tasks[id].state_type {
            TaskStateType::InProgress => true,
            _ => false,
        };
        if !in_progress {
            // Invalidated while running: the result is discarded.
            return ;
        }
        let notify = {
            let t = &mut self.tasks[id];
            match result {
                Ok(handle) => t.output.link(handle),
                Err(err) => t.output.error(err),
            }
        };
        proof {
            lemma_wf_after_task_update(*old(self), *self, id);
        }
        match notify {
            Some(set) => {
                actions.push(Action::NotifyTasks(set));
            }
            None => {}
        }
    }

    /// Installs the dependencies and cell mappings recorded by the finished
    /// execution, then settles the task's state.  The new dependency set
    /// fully replaces the previous one; the two are never merged.  Returns
    /// whether the task must be scheduled again.
    pub fn execution_completed(
        &mut self,
        id: TaskId,
        cell_mappings: Option<CellMappings>,
        deps: Vec<ValueHandle>,
        duration: u64,
        actions: &mut Vec<Action>,
    ) -> (schedule_again: bool)
        requires
            old(self).wf(),
            id < old(self).spec_num_tasks(),
            old(self).spec_task(id).state_type == TaskStateType::InProgress || old(self).spec_task(
                id,
            ).state_type == TaskStateType::InProgressDirty,
            forall|k: int|
                0 <= k < deps@.len() ==> (#[trigger] deps@[k]).spec_task_id() < old(
                    self,
                ).spec_num_tasks(),
        ensures
            final(self).wf(),
            final(self).tasks@.len() == old(self).tasks@.len(),
            final(self).scopes@.len() == old(self).scopes@.len(),
            old(self).spec_task(id).state_type == TaskStateType::InProgress ==> final(self).spec_task(id).state_type == TaskStateType::Done && final(self).spec_task(
                id,
            ).dependencies@ == deps@.to_set() && !schedule_again,
            old(self).spec_task(id).state_type == TaskStateType::InProgress ==> forall|
                s: ScopeId,
            |
                s < old(self).scopes@.len() ==> (#[trigger] final(self).scopes@[s as int]).unfinished_tasks
                    == (if old(self).spec_task(id).scopes.spec_scopes().contains(s) {
                    spec_dec(old(self).scopes@[s as int].unfinished_tasks)
                } else {
                    old(self).scopes@[s as int].unfinished_tasks
                }),
            old(self).spec_task(id).state_type == TaskStateType::InProgressDirty ==> final(self).spec_task(id).dependencies@ == Set::<ValueHandle>::empty() && final(self).scopes@ == old(self).scopes@,
            old(self).spec_task(id).state_type == TaskStateType::InProgressDirty ==> final(self).spec_task(id).state_type == (if schedule_again {
                TaskStateType::Scheduled
            } else {
                TaskStateType::Dirty
            }),
            old(self).spec_task(id).state_type == TaskStateType::InProgress ==> forall|i: int|
                0 <= i < old(self).tasks@.len() && i != id ==> final(self).tasks@[i] == old(
                    self,
                ).tasks@[i],
            old(self).spec_task(id).state_type == TaskStateType::InProgress ==> final(self).spec_task(id).scopes == old(self).spec_task(id).scopes,
            old(self).spec_task(id).state_type == TaskStateType::InProgress ==> forall|s: ScopeId|
                s < old(self).scopes@.len() && crate::backend::unfinished_count_exact(
                    *old(self),
                    s,
                ) ==> #[trigger] crate::backend::unfinished_count_exact(*final(self), s),
            crate::backend::actions_extended(old(actions)@, final(actions)@),
            old(self).spec_task(id).state_type == TaskStateType::InProgress ==> final(actions)@.contains(Action::TaskDone(id)),
            old(self).spec_task(id).state_type == TaskStateType::InProgress ==> forall|s: ScopeId|
                old(self).spec_task(id).scopes.spec_scopes().contains(s) && (#[trigger] old(
                    self,
                ).spec_scope(s)).unfinished_tasks == 1 ==> final(actions)@.contains(
                    Action::ScopeSettled(s),
                ),
            old(self).spec_task(id).ty == TaskType::Once ==> final(actions)@.len() > old(
                actions,
            )@.len() && final(actions)@.last() == Action::BackgroundJob(Job::RemoveRootScope(id)),
            old(self).spec_task(id).state_type == TaskStateType::InProgress ==> final(self).spec_task(id) == (Task {
                state_type: TaskStateType::Done,
                dependencies: final(self).spec_task(id).dependencies,
                cell_mappings: final(self).spec_task(id).cell_mappings,
                total_duration: final(self).spec_task(id).total_duration,
                ..old(self).spec_task(id)
            }),
            final(self).spec_task(id).total_duration == (if old(self).spec_task(
                id,
            ).total_duration + duration <= u64::MAX {
                (old(self).spec_task(id).total_duration + duration) as u64
            } else {
                u64::MAX
            }),
            final(self).spec_task(id).cell_mappings == (match cell_mappings {
                Some(m) => m,
                None => old(self).spec_task(id).cell_mappings,
            }),
            old(self).spec_task(id).state_type == TaskStateType::InProgressDirty ==> schedule_again
                == (exists|k: int|
                0 <= k < old(self).spec_task(id).scopes.spec_scopes().len() && old(
                    self,
                ).spec_scope(#[trigger] old(self).spec_task(id).scopes.spec_scopes()[k]).active_count
                    > 0),
            old(self).spec_task(id).state_type == TaskStateType::InProgressDirty ==> forall|j: int|
                0 <= j < old(self).tasks@.len() ==> (#[trigger] final(self).tasks@[j]).output.dependent_tasks@
                    == (if deps@.contains(ValueHandle::TaskOutput(j as TaskId)) {
                    old(self).tasks@[j].output.dependent_tasks@.remove(id)
                } else {
                    old(self).tasks@[j].output.dependent_tasks@
                }),
            old(self).spec_task(id).state_type == TaskStateType::InProgressDirty ==> forall|
                j: TaskId,
                ci: CellId,
            |
                j < old(self).tasks@.len() && ci < old(self).tasks@[j as int].created_cells@.len()
                    ==> (#[trigger] final(self).tasks@[j as int].created_cells@[ci as int]).dependent_tasks@
                    == (if deps@.contains(ValueHandle::TaskCell(j, ci)) {
                    old(self).tasks@[j as int].created_cells@[ci as int].dependent_tasks@.remove(
                        id,
                    )
                } else {
                    old(self).tasks@[j as int].created_cells@[ci as int].dependent_tasks@
                }),
            old(self).spec_task(id).state_type == TaskStateType::InProgressDirty ==> forall|i: int|
                0 <= i < old(self).tasks@.len() && i != id ==> (#[trigger] final(self).tasks@[i]).dependencies
                    == old(self).tasks@[i].dependencies && same_but_backedges(
                    old(self).tasks@[i],
                    final(self).tasks@[i],
                ),
    {
        // Install the execution's dependency set and cell mappings.
        {
            let t = &mut self.tasks[id];
            t.dependencies.clear();
            let mut k: usize = 0;
            while k < deps.len()
                invariant
                    k <= deps@.len(),
                    t.dependencies.wf(),
                    t.dependencies@ == deps@.take(k as int).to_set(),
                    *t == (Task { dependencies: t.dependencies, ..old(self).spec_task(id) }),
                decreases deps@.len() - k,
            {
                proof {
                    assert(deps@.take(k + 1 as int) =~= deps@.take(k as int).push(
                        deps@[k as int],
                    ));
                    Seq::<ValueHandle>::lemma_push_to_set_commute(
                        deps@.take(k as int),
                        deps@[k as int],
                    );
                }
                t.dependencies.insert(deps[k]);
                k += 1;
            }
            proof {
                assert(deps@.take(deps@.len() as int) =~= deps@);
            }
            match cell_mappings {
                Some(m) => {
                    t.cell_mappings = m;
                }
                None => {}
            }
            t.total_duration = t.total_duration.saturating_add(duration);
        }
        proof {
            assert forall|d: ValueHandle| self.spec_task(id).dependencies@.contains(
                d,
            ) implies d.spec_task_id() < old(self).spec_num_tasks() by {
                assert(deps@.to_set().contains(d));
                let k = choose|k: int| 0 <= k < deps@.len() && deps@[k] == d;
                assert(deps@[k].spec_task_id() < old(self).spec_num_tasks());
            }
            lemma_wf_after_task_update(*old(self), *self, id);
        }
        let in_progress = match self.tasks[id].state_type {
            TaskStateType::InProgress => true,
            _ => false,
        };
        let mut schedule_again: bool = false;
        let ghost mut done_idx: int = 0;
        let ghost mut acts_settled: Seq<Action> = Seq::empty();
        if in_progress {
            self.set_task_state(id, TaskStateType::Done);
            let scopes_vec = self.tasks[id].scopes.to_vec();
            proof {
                assert(valid_task(
                    old(self).tasks@[id as int],
                    old(self).spec_num_tasks(),
                    old(self).spec_num_scopes(),
                ));
                old(self).spec_task(id).scopes.lemma_scopes_distinct();
            }
            let ghost mid = *self;
            let mut i: usize = 0;
            while i < scopes_vec.len()
                invariant
                    i <= scopes_vec@.len(),
                    self.wf(),
                    scopes_vec@ == mid.spec_task(id).scopes.spec_scopes(),
                    scopes_vec@.no_duplicates(),
                    forall|k: int|
                        0 <= k < scopes_vec@.len() ==> #[trigger] scopes_vec@[k]
                            < mid.scopes@.len(),
                    self.tasks@ == mid.tasks@,
                    self.scopes@.len() == mid.scopes@.len(),
                    forall|t: ScopeId|
                        t < mid.scopes@.len() ==> (#[trigger] self.scopes@[t as int]).unfinished_tasks
                            == (if scopes_vec@.take(i as int).contains(t) {
                            spec_dec(mid.scopes@[t as int].unfinished_tasks)
                        } else {
                            mid.scopes@[t as int].unfinished_tasks
                        }),
                    forall|t: ScopeId|
                        t < mid.scopes@.len() ==> #[trigger] self.scopes@[t as int] == (
                        crate::scope::Scope {
                            unfinished_tasks: self.scopes@[t as int].unfinished_tasks,
                            ..mid.scopes@[t as int]
                        }),
                    crate::backend::actions_extended(old(actions)@, actions@),
                    forall|k: int|
                        0 <= k < i && mid.scopes@[scopes_vec@[k] as int].unfinished_tasks == 1
                            ==> actions@.contains(
                            Action::ScopeSettled(#[trigger] scopes_vec@[k]),
                        ),
                decreases scopes_vec@.len() - i,
            {
                let s = scopes_vec[i];
                let ghost pre = *self;
                let reached_zero = {
                    let sc = &mut self.scopes[s];
                    sc.decrement_unfinished_tasks()
                };
                proof {
                    crate::backend::lemma_wf_after_scope_update(pre, *self, s);
                    assert(scopes_vec@.take(i + 1 as int) =~= scopes_vec@.take(i as int).push(
                        scopes_vec@[i as int],
                    ));
                    assert forall|t: ScopeId| t < mid.scopes@.len() implies (
                    #[trigger] self.scopes@[t as int]).unfinished_tasks == (if scopes_vec@.take(
                        i + 1 as int,
                    ).contains(t) {
                        spec_dec(mid.scopes@[t as int].unfinished_tasks)
                    } else {
                        mid.scopes@[t as int].unfinished_tasks
                    }) by {
                        lemma_push_contains(scopes_vec@.take(i as int), scopes_vec@[i as int], t);
                        if t == s {
                            assert(!scopes_vec@.take(i as int).contains(t)) by {
                                if scopes_vec@.take(i as int).contains(t) {
                                    let j = choose|j: int|
                                        0 <= j < i && scopes_vec@.take(i as int)[j] == t;
                                    assert(scopes_vec@[j] == scopes_vec@[i as int]);
                                }
                            }
                            assert(scopes_vec@.take(i + 1 as int).contains(s));
                        } else {
                            assert(self.scopes@[t as int] == pre.scopes@[t as int]);
                        }
                    }
                }
                let ghost acts_pre_push = actions@;
                if reached_zero {
                    actions.push(Action::ScopeSettled(s));
                }
                proof {
                    assert forall|k: int|
                        0 <= k < i + 1 && mid.scopes@[scopes_vec@[k] as int].unfinished_tasks
                            == 1 implies actions@.contains(
                        Action::ScopeSettled(#[trigger] scopes_vec@[k]),
                    ) by {
                        if k < i {
                            let w = choose|w: int|
                                0 <= w < acts_pre_push.len() && acts_pre_push[w]
                                    == Action::ScopeSettled(scopes_vec@[k]);
                            assert(actions@[w] == Action::ScopeSettled(scopes_vec@[k]));
                        } else {
                            assert(reached_zero);
                            assert(actions@.last() == Action::ScopeSettled(s));
                        }
                    }
                }
                i += 1;
            }
            proof {
                assert(scopes_vec@.take(scopes_vec@.len() as int) =~= scopes_vec@);
            }
            proof {
                acts_settled = actions@;
            }
            actions.push(Action::TaskDone(id));
            proof {
                done_idx = actions@.len() - 1;
                assert forall|s: ScopeId|
                    s < old(self).scopes@.len() && crate::backend::unfinished_count_exact(
                        *old(self),
                        s,
                    ) implies #[trigger] crate::backend::unfinished_count_exact(*self, s) by {
                    crate::laws::lemma_completion_keeps_count_exact(*old(self), *self, id, s);
                }
            }
        } else {
            // Invalidated while running: forget what the stale execution
            // read, then park or reschedule.
            self.clear_dependencies(id);
            let scopes_vec = self.tasks[id].scopes.to_vec();
            proof {
                assert(valid_task(
                    self.tasks@[id as int],
                    self.spec_num_tasks(),
                    self.spec_num_scopes(),
                ));
            }
            let active = self.any_scope_active(&scopes_vec);
            if active {
                self.set_task_state(id, TaskStateType::Scheduled);
                schedule_again = true;
            } else {
                self.set_task_state(id, TaskStateType::Dirty);
            }
        }
        let is_once = match self.tasks[id].ty {
            TaskType::Once => true,
            _ => false,
        };
        if is_once {
            actions.push(Action::BackgroundJob(Job::RemoveRootScope(id)));
        }
        proof {
            if in_progress {
                assert(actions@.contains(Action::TaskDone(id))) by {
                    assert(actions@[done_idx] == Action::TaskDone(id));
                }
                assert forall|s: ScopeId|
                    old(self).spec_task(id).scopes.spec_scopes().contains(s) && (#[trigger] old(
                        self,
                    ).spec_scope(s)).unfinished_tasks == 1 implies actions@.contains(
                    Action::ScopeSettled(s),
                ) by {
                    let m = old(self).spec_task(id).scopes.spec_scopes();
                    let k = choose|k: int| 0 <= k < m.len() && m[k] == s;
                    assert(acts_settled.contains(Action::ScopeSettled(s)));
                    let w = choose|w: int|
                        0 <= w < acts_settled.len() && acts_settled[w] == Action::ScopeSettled(
                            s,
                        );
                    assert(actions@[w] == Action::ScopeSettled(s));
                }
            }
        }
        schedule_again
    }

    /// Marks the task's cached result as invalid.  A one-shot task never
    /// becomes dirty.  A Done task books one more unfinished task into every
    /// containing scope and is scheduled when any of them is observed, or
    /// parked in their dirty sets otherwise; a running task is flagged so
    /// that its result is discarded.
    pub fn make_dirty(&mut self, id: TaskId, actions: &mut Vec<Action>)
        requires
            old(self).wf(),
            id < old(self).spec_num_tasks(),
        ensures
            final(self).wf(),
            final(self).tasks@.len() == old(self).tasks@.len(),
            final(self).scopes@.len() == old(self).scopes@.len(),
            old(self).spec_task(id).ty == TaskType::Once ==> final(self).tasks@ == old(
                self,
            ).tasks@ && final(self).scopes@ == old(self).scopes@ && final(actions)@ == old(
                actions,
            )@,
            old(self).spec_task(id).ty != TaskType::Once ==> final(self).spec_task(
                id,
            ).dependencies@ == Set::<ValueHandle>::empty(),
            old(self).spec_task(id).ty != TaskType::Once ==> forall|j: int|
                0 <= j < old(self).tasks@.len() ==> (#[trigger] final(self).tasks@[j]).output.dependent_tasks@
                    == (if old(self).spec_task(id).dependencies@.contains(
                    ValueHandle::TaskOutput(j as TaskId),
                ) {
                    old(self).tasks@[j].output.dependent_tasks@.remove(id)
                } else {
                    old(self).tasks@[j].output.dependent_tasks@
                }),
            old(self).spec_task(id).ty != TaskType::Once ==> forall|j: TaskId, ci: CellId|
                j < old(self).tasks@.len() && ci < old(self).tasks@[j as int].created_cells@.len()
                    ==> (#[trigger] final(self).tasks@[j as int].created_cells@[ci as int]).dependent_tasks@
                    == (if old(self).spec_task(id).dependencies@.contains(
                    ValueHandle::TaskCell(j, ci),
                ) {
                    old(self).tasks@[j as int].created_cells@[ci as int].dependent_tasks@.remove(
                        id,
                    )
                } else {
                    old(self).tasks@[j as int].created_cells@[ci as int].dependent_tasks@
                }),
            old(self).spec_task(id).ty != TaskType::Once && old(self).spec_task(id).state_type
                == TaskStateType::InProgress ==> final(self).spec_task(id).state_type
                == TaskStateType::InProgressDirty && final(self).scopes@ == old(self).scopes@,
            old(self).spec_task(id).ty != TaskType::Once && (old(self).spec_task(id).state_type
                == TaskStateType::Dirty || old(self).spec_task(id).state_type
                == TaskStateType::Scheduled || old(self).spec_task(id).state_type
                == TaskStateType::InProgressDirty) ==> final(self).spec_task(id).state_type == old(
                self,
            ).spec_task(id).state_type && final(self).scopes@ == old(self).scopes@,
            old(self).spec_task(id).ty != TaskType::Once && old(self).spec_task(id).state_type
                == TaskStateType::Done ==> final(self).spec_task(id).state_type == (if (exists|
                k: int,
            |
                0 <= k < old(self).spec_task(id).scopes.spec_scopes().len() && old(
                    self,
                ).spec_scope(#[trigger] old(self).spec_task(id).scopes.spec_scopes()[k]).active_count
                    > 0) {
                TaskStateType::Scheduled
            } else {
                TaskStateType::Dirty
            }),
            old(self).spec_task(id).ty != TaskType::Once && old(self).spec_task(id).state_type
                == TaskStateType::Done ==> forall|t: ScopeId|
                t < old(self).scopes@.len() ==> (#[trigger] final(self).scopes@[t as int]).unfinished_tasks
                    == (if old(self).spec_task(id).scopes.spec_scopes().contains(t) {
                    spec_inc(old(self).scopes@[t as int].unfinished_tasks)
                } else {
                    old(self).scopes@[t as int].unfinished_tasks
                }),
            old(self).spec_task(id).ty != TaskType::Once && old(self).spec_task(id).state_type
                == TaskStateType::Done ==> forall|t: ScopeId|
                t < old(self).scopes@.len() ==> (#[trigger] final(self).scopes@[t as int]).dirty_tasks@
                    == (if old(self).spec_task(id).scopes.spec_scopes().contains(t) && old(
                    self,
                ).scopes@[t as int].active_count == 0 {
                    old(self).scopes@[t as int].dirty_tasks@.insert(id)
                } else {
                    old(self).scopes@[t as int].dirty_tasks@
                }),
            old(self).spec_task(id).ty != TaskType::Once ==> forall|i: int|
                0 <= i < old(self).tasks@.len() && i != id ==> (#[trigger] final(self).tasks@[i]).scopes
                    == old(self).tasks@[i].scopes && final(self).tasks@[i].state_type == old(
                    self,
                ).tasks@[i].state_type,
            old(self).spec_task(id).ty != TaskType::Once ==> final(self).spec_task(id).scopes
                == old(self).spec_task(id).scopes,
            old(self).spec_task(id).ty != TaskType::Once && old(self).spec_task(id).state_type
                == TaskStateType::Done ==> forall|s: ScopeId|
                s < old(self).scopes@.len() && crate::backend::unfinished_count_exact(
                    *old(self),
                    s,
                ) && old(self).scopes@[s as int].unfinished_tasks < u32::MAX
                    ==> #[trigger] crate::backend::unfinished_count_exact(*final(self), s),
            old(self).spec_task(id).ty != TaskType::Once && old(self).spec_task(id).state_type
                != TaskStateType::Done ==> final(actions)@ == old(actions)@,
            old(self).spec_task(id).ty != TaskType::Once && old(self).spec_task(id).state_type
                == TaskStateType::Done ==> final(actions)@ == (if (exists|k: int|
                0 <= k < old(self).spec_task(id).scopes.spec_scopes().len() && old(
                    self,
                ).spec_scope(#[trigger] old(self).spec_task(id).scopes.spec_scopes()[k]).active_count
                    > 0) {
                old(actions)@.push(Action::Schedule(id))
            } else {
                old(actions)@
            }),
    {
        let is_once = match self.tasks[id].ty {
            TaskType::Once => true,
            _ => false,
        };
        if is_once {
            // A one-shot task never becomes dirty.
            return ;
        }
        self.clear_dependencies(id);
        let state = self.tasks[id].state_type;
        match state {
            TaskStateType::Dirty | TaskStateType::Scheduled | TaskStateType::InProgressDirty => {}
            TaskStateType::InProgress => {
                self.set_task_state(id, TaskStateType::InProgressDirty);
            }
            TaskStateType::Done => {
                let scopes_vec = self.tasks[id].scopes.to_vec();
                proof {
                    assert(valid_task(
                        self.tasks@[id as int],
                        self.spec_num_tasks(),
                        self.spec_num_scopes(),
                    ));
                    self.spec_task(id).scopes.lemma_scopes_distinct();
                }
                let ghost mid = *self;
                let mut active: bool = false;
                let mut i: usize = 0;
                while i < scopes_vec.len()
                    invariant
                        i <= scopes_vec@.len(),
                        self.wf(),
                        id < mid.tasks@.len(),
                        scopes_vec@ == mid.spec_task(id).scopes.spec_scopes(),
                        scopes_vec@.no_duplicates(),
                        forall|k: int|
                            0 <= k < scopes_vec@.len() ==> #[trigger] scopes_vec@[k]
                                < mid.scopes@.len(),
                        self.tasks@ == mid.tasks@,
                        self.scopes@.len() == mid.scopes@.len(),
                        active == (exists|k: int|
                            0 <= k < i && mid.spec_scope(
                                #[trigger] scopes_vec@[k],
                            ).active_count > 0),
                        forall|t: ScopeId|
                            t < mid.scopes@.len() ==> (#[trigger] self.scopes@[t as int]).unfinished_tasks
                                == (if scopes_vec@.take(i as int).contains(t) {
                                spec_inc(mid.scopes@[t as int].unfinished_tasks)
                            } else {
                                mid.scopes@[t as int].unfinished_tasks
                            }),
                        forall|t: ScopeId|
                            t < mid.scopes@.len() ==> (#[trigger] self.scopes@[t as int]).dirty_tasks@
                                == (if scopes_vec@.take(i as int).contains(t)
                                && mid.scopes@[t as int].active_count == 0 {
                                mid.scopes@[t as int].dirty_tasks@.insert(id)
                            } else {
                                mid.scopes@[t as int].dirty_tasks@
                            }),
                        forall|t: ScopeId|
                            t < mid.scopes@.len() ==> #[trigger] self.scopes@[t as int] == (
                            crate::scope::Scope {
                                unfinished_tasks: self.scopes@[t as int].unfinished_tasks,
                                dirty_tasks: self.scopes@[t as int].dirty_tasks,
                                ..mid.scopes@[t as int]
                            }),
                    decreases scopes_vec@.len() - i,
                {
                    let s = scopes_vec[i];
                    let ghost pre = *self;
                    let scope_active = {
                        let sc = &mut self.scopes[s];
                        sc.increment_unfinished_tasks();
                        let a = sc.is_active();
                        if !a {
                            sc.add_dirty_task(id);
                        }
                        a
                    };
                    if scope_active {
                        active = true;
                    }
                    proof {
                        crate::backend::lemma_wf_after_scope_update(pre, *self, s);
                        assert(scopes_vec@.take(i + 1 as int) =~= scopes_vec@.take(i as int).push(
                            scopes_vec@[i as int],
                        ));
                        assert forall|t: ScopeId| t < mid.scopes@.len() implies (
                        #[trigger] self.scopes@[t as int]).unfinished_tasks == (if scopes_vec@.take(
                            i + 1 as int,
                        ).contains(t) {
                            spec_inc(mid.scopes@[t as int].unfinished_tasks)
                        } else {
                            mid.scopes@[t as int].unfinished_tasks
                        }) && (self.scopes@[t as int]).dirty_tasks@ == (if scopes_vec@.take(
                            i + 1 as int,
                        ).contains(t) && mid.scopes@[t as int].active_count == 0 {
                            mid.scopes@[t as int].dirty_tasks@.insert(id)
                        } else {
                            mid.scopes@[t as int].dirty_tasks@
                        }) by {
                            lemma_push_contains(
                                scopes_vec@.take(i as int),
                                scopes_vec@[i as int],
                                t,
                            );
                            if t == s {
                                assert(!scopes_vec@.take(i as int).contains(t)) by {
                                    if scopes_vec@.take(i as int).contains(t) {
                                        let j = choose|j: int|
                                            0 <= j < i && scopes_vec@.take(i as int)[j] == t;
                                        assert(scopes_vec@[j] == scopes_vec@[i as int]);
                                    }
                                }
                                assert(scopes_vec@.take(i + 1 as int).contains(s));
                            } else {
                                assert(self.scopes@[t as int] == pre.scopes@[t as int]);
                            }
                        }
                        assert(active == (exists|k: int|
                            0 <= k < i + 1 && mid.spec_scope(
                                #[trigger] scopes_vec@[k],
                            ).active_count > 0)) by {
                            if scope_active {
                                assert(mid.spec_scope(scopes_vec@[i as int]).active_count > 0);
                            }
                        }
                    }
                    i += 1;
                }
                proof {
                    assert(scopes_vec@.take(scopes_vec@.len() as int) =~= scopes_vec@);
                }
                if active {
                    self.set_task_state(id, TaskStateType::Scheduled);
                    actions.push(Action::Schedule(id));
                } else {
                    self.set_task_state(id, TaskStateType::Dirty);
                }
                proof {
                    assert forall|s: ScopeId|
                        s < old(self).scopes@.len() && crate::backend::unfinished_count_exact(
                            *old(self),
                            s,
                        ) && old(self).scopes@[s as int].unfinished_tasks < u32::MAX implies #[trigger] crate::backend::unfinished_count_exact(
                        *self,
                        s,
                    ) by {
                        crate::laws::lemma_invalidation_keeps_count_exact(
                            *old(self),
                            *self,
                            id,
                            s,
                        );
                    }
                }
            }
        }
    }

    /// Invalidates the task: its cached result must not be used again.  When
    /// the task is observed it is scheduled for re-execution.
    pub fn invalidate(&mut self, id: TaskId, actions: &mut Vec<Action>)
        requires
            old(self).wf(),
            id < old(self).spec_num_tasks(),
        ensures
            final(self).wf(),
            final(self).tasks@.len() == old(self).tasks@.len(),
            final(self).scopes@.len() == old(self).scopes@.len(),
            old(self).spec_task(id).ty != TaskType::Once ==> final(self).spec_task(
                id,
            ).dependencies@ == Set::<ValueHandle>::empty(),
            old(self).spec_task(id).ty != TaskType::Once ==> forall|j: int|
                0 <= j < old(self).tasks@.len() ==> (#[trigger] final(self).tasks@[j]).output.dependent_tasks@
                    == (if old(self).spec_task(id).dependencies@.contains(
                    ValueHandle::TaskOutput(j as TaskId),
                ) {
                    old(self).tasks@[j].output.dependent_tasks@.remove(id)
                } else {
                    old(self).tasks@[j].output.dependent_tasks@
                }),
            old(self).spec_task(id).ty != TaskType::Once ==> forall|j: TaskId, ci: CellId|
                j < old(self).tasks@.len() && ci < old(self).tasks@[j as int].created_cells@.len()
                    ==> (#[trigger] final(self).tasks@[j as int].created_cells@[ci as int]).dependent_tasks@
                    == (if old(self).spec_task(id).dependencies@.contains(
                    ValueHandle::TaskCell(j, ci),
                ) {
                    old(self).tasks@[j as int].created_cells@[ci as int].dependent_tasks@.remove(
                        id,
                    )
                } else {
                    old(self).tasks@[j as int].created_cells@[ci as int].dependent_tasks@
                }),
            old(self).spec_task(id).ty != TaskType::Once && old(self).spec_task(id).state_type
                == TaskStateType::Done ==> final(self).spec_task(id).state_type == (if (exists|
                k: int,
            |
                0 <= k < old(self).spec_task(id).scopes.spec_scopes().len() && old(
                    self,
                ).spec_scope(#[trigger] old(self).spec_task(id).scopes.spec_scopes()[k]).active_count
                    > 0) {
                TaskStateType::Scheduled
            } else {
                TaskStateType::Dirty
            }),
    {
        self.make_dirty(id, actions);
    }

    /// Strips the root scope from a task, leaving it in no scope at all; its
    /// children are handed to a background job for removal from that scope.
    pub fn remove_root_scope(&mut self, id: TaskId, actions: &mut Vec<Action>)
        requires
            old(self).wf(),
            id < old(self).spec_num_tasks(),
        ensures
            final(self).wf(),
            final(self).scopes@ == old(self).scopes@,
            final(self).tasks@.len() == old(self).tasks@.len(),
            !old(self).spec_task(id).scopes.spec_is_root() ==> final(self).tasks@ == old(
                self,
            ).tasks@ && final(actions)@ == old(actions)@,
            old(self).spec_task(id).scopes.spec_is_root() ==> (final(self).spec_task(id).scopes
                matches TaskScopes::Inner(list) && list.entries().len() == 0),
            old(self).spec_task(id).scopes.spec_is_root() ==> final(self).spec_task(id) == (Task {
                scopes: final(self).spec_task(id).scopes,
                ..old(self).spec_task(id)
            }),
            old(self).spec_task(id).scopes.spec_is_root() ==> (final(actions)@.len() == old(
                actions,
            )@.len() + 1 && (final(actions)@.last() matches Action::BackgroundJob(Job::RemoveFromScope(c, s)) && c@ == old(self).spec_task(id).children.elems() && s == old(
                self,
            ).spec_task(id).scopes->Root_0)),
            crate::backend::actions_extended(old(actions)@, final(actions)@),
    {
        let is_root = self.tasks[id].scopes.is_root();
        if !is_root {
            return ;
        }
        let (children, root) = {
            let t = &mut self.tasks[id];
            let root = match t.scopes {
                TaskScopes::Root(r) => r,
                TaskScopes::Inner(_) => 0,
            };
            t.scopes = TaskScopes::Inner(crate::scope::ScopeList::new());
            (t.children.to_vec(), root)
        };
        proof {
            assert(self.spec_task(id).scopes.spec_scopes() =~= Seq::<ScopeId>::empty());
            lemma_wf_after_task_update(*old(self), *self, id);
        }
        actions.push(Action::BackgroundJob(Job::RemoveFromScope(children, root)));
    }

    /// Looks for a scope with unfinished member tasks, starting at `root`
    /// and walking into child scopes, within a bounded number of steps.
    /// `None` guarantees at least that `root` itself has none; a walk that
    /// runs out of budget conservatively reports `root` as unfinished so
    /// that the caller waits and retries.
    pub fn find_unfinished_scope(&self, root: ScopeId) -> (r: Option<ScopeId>)
        requires
            self.wf(),
            root < self.spec_num_scopes(),
        ensures
            r is None ==> self.spec_scope(root).unfinished_tasks == 0,
            self.spec_scope(root).unfinished_tasks == 0 && self.spec_scope(
                root,
            ).children.entries().len() == 0 ==> r is None,
            r matches Some(s) ==> s < self.spec_num_scopes() && (self.spec_scope(
                s,
            ).unfinished_tasks != 0 || (s == root && self.spec_scope(
                root,
            ).children.entries().len() != 0)),
    {
        // A settled scope without child scopes needs no walk at all.
        {
            let sc = &self.scopes[root];
            if sc.unfinished_tasks == 0 && sc.children.is_empty() {
                return None;
            }
        }
        let mut queue: Vec<ScopeId> = Vec::new();
        queue.push(root);
        proof {
            assert(queue@[0] == root);
        }
        let mut fuel: usize = 1024;
        while queue.len() != 0
            invariant
                self.wf(),
                root < self.spec_num_scopes(),
                forall|k: int| 0 <= k < queue@.len() ==> #[trigger] queue@[k] < self.spec_num_scopes(),
                self.spec_scope(root).unfinished_tasks == 0 || queue@.contains(root),
                self.spec_scope(root).unfinished_tasks != 0 || self.spec_scope(
                    root,
                ).children.entries().len() != 0,
            decreases fuel,
        {
            if fuel == 0 {
                return Some(root);
            }
            fuel = fuel - 1;
            let ghost q0 = queue@;
            let s = match queue.pop() {
                Some(s) => s,
                None => {
                    return None;
                }
            };
            let sc = &self.scopes[s];
            if sc.unfinished_tasks != 0 {
                return Some(s);
            }
            proof {
                if self.spec_scope(root).unfinished_tasks != 0 {
                    assert(q0.contains(root));
                    let j = choose|j: int| 0 <= j < q0.len() && q0[j] == root;
                    if j == q0.len() - 1 {
                        assert(s == root);
                    } else {
                        assert(queue@[j] == root);
                    }
                }
            }
            let children = sc.children.into_scopes();
            proof {
                assert(valid_scope(
                    self.scopes@[s as int],
                    self.spec_num_tasks(),
                    self.spec_num_scopes(),
                ));
            }
            let mut c: usize = 0;
            while c < children.len()
                invariant
                    c <= children@.len(),
                    self.wf(),
                    root < self.spec_num_scopes(),
                    children@ == self.spec_scope(s).children.entries(),
                    s < self.spec_num_scopes(),
                    forall|k: int|
                        0 <= k < queue@.len() ==> #[trigger] queue@[k] < self.spec_num_scopes(),
                    self.spec_scope(root).unfinished_tasks == 0 || queue@.contains(root),
                decreases children@.len() - c,
            {
                let ghost q1 = queue@;
                queue.push(children[c].0);
                proof {
                    assert(valid_scope(
                        self.scopes@[s as int],
                        self.spec_num_tasks(),
                        self.spec_num_scopes(),
                    ));
                    if q1.contains(root) {
                        let j = choose|j: int| 0 <= j < q1.len() && q1[j] == root;
                        assert(queue@[j] == root);
                    }
                }
                c += 1;
            }
        }
        None
    }

    /// Reads the task's output, or says what to wait for.
    ///
    /// An eventually-consistent read returns the output as soon as the task
    /// itself is Done.  A strongly consistent read first pins the task to a
    /// root scope, then demands that the runtime's foreground jobs have
    /// drained (`foreground_done`) and that no scope under the root has
    /// unfinished tasks, so that the returned value reflects every
    /// invalidation that happened before the call began.  `reader` is
    /// registered as a dependent of the output when the read succeeds.
    pub fn get_or_wait_output(
        &mut self,
        id: TaskId,
        strongly_consistent: bool,
        foreground_done: bool,
        reader: TaskId,
        actions: &mut Vec<Action>,
    ) -> (r: Result<Result<ValueHandle, ReadError>, Listener>)
        requires
            old(self).wf(),
            id < old(self).spec_num_tasks(),
        ensures
            final(self).wf(),
            final(self).tasks@.len() == old(self).tasks@.len(),
            !strongly_consistent ==> final(self).scopes@ == old(self).scopes@,
            r matches Ok(v) ==> final(self).spec_task(id).state_type == TaskStateType::Done && v
                == crate::output::spec_read(final(self).spec_task(id).output.content),
            r matches Ok(v) ==> v == crate::output::spec_read(
                old(self).spec_task(id).output.content,
            ) && final(self).spec_task(id).output.dependent_tasks@ == old(self).spec_task(
                id,
            ).output.dependent_tasks@.insert(reader),
            r matches Err(l) ==> (l matches Listener::TaskEvent(t) ==> t == id && final(self).spec_task(id).state_type != TaskStateType::Done),
            !strongly_consistent ==> ((r is Ok) <==> old(self).spec_task(id).state_type
                == TaskStateType::Done),
            strongly_consistent && !foreground_done ==> r == Result::<
                Result<ValueHandle, ReadError>,
                Listener,
            >::Err(Listener::ForegroundPending),
            strongly_consistent ==> final(self).spec_task(id).scopes.spec_is_root(),
            r matches Err(l) ==> (l matches Listener::ScopeEvent(s) ==> s < final(self).spec_num_scopes() && (final(self).spec_scope(s).unfinished_tasks != 0 || final(self).spec_task(id).scopes == TaskScopes::Root(s))),
            !strongly_consistent && r is Err ==> final(self).tasks@ == old(self).tasks@
                && final(actions)@ == old(actions)@ && r == Result::<
                Result<ValueHandle, ReadError>,
                Listener,
            >::Err(Listener::TaskEvent(id)),
            r == Result::<Result<ValueHandle, ReadError>, Listener>::Err(
                Listener::ForegroundPending,
            ) ==> strongly_consistent && !foreground_done,
            strongly_consistent ==> (r is Ok ==> (final(self).spec_task(id).scopes matches TaskScopes::Root(rt) && final(self).spec_scope(rt).unfinished_tasks == 0)),
            strongly_consistent && foreground_done && old(self).spec_task(id).state_type
                == TaskStateType::Done && ((old(self).spec_task(id).scopes matches TaskScopes::Root(rt2) && old(self).spec_scope(rt2).unfinished_tasks == 0 && old(self).spec_scope(
                rt2,
            ).children.entries().len() == 0) || (old(self).spec_task(id).scopes.spec_is_inner()
                && old(self).spec_task(id).children.elems().len() == 0)) ==> r is Ok,
    {
        if strongly_consistent {
            let is_root = self.tasks[id].scopes.is_root();
            if !is_root {
                self.make_root_scoped_internal(id, actions);
            }
            // Scope membership updates still queued in the foreground must
            // land before member counts can be trusted.
            if !foreground_done {
                return Err(Listener::ForegroundPending);
            }
            let root = match self.tasks[id].scopes {
                TaskScopes::Root(r) => r,
                TaskScopes::Inner(_) => 0,
            };
            proof {
                assert(valid_task(
                    self.tasks@[id as int],
                    self.spec_num_tasks(),
                    self.spec_num_scopes(),
                ));
                assert(self.spec_task(id).scopes.spec_scopes()[0] == root);
            }
            match self.find_unfinished_scope(root) {
                Some(s) => {
                    return Err(Listener::ScopeEvent(s));
                }
                None => {}
            }
        }
        let is_done = match self.tasks[id].state_type {
            TaskStateType::Done => true,
            _ => false,
        };
        if !is_done {
            return Err(Listener::TaskEvent(id));
        }
        let ghost mid = *self;
        let result = {
            let t = &mut self.tasks[id];
            t.output.read(reader)
        };
        proof {
            lemma_wf_after_task_update(mid, *self, id);
        }
        Ok(result)
    }
}

/// Membership in a sequence extended by one element.
pub proof fn lemma_push_contains<A>(s: Seq<A>, x: A, y: A)
    ensures
        s.push(x).contains(y) <==> (s.contains(y) || x == y),
{
    if s.contains(y) {
        let j = choose|j: int| 0 <= j < s.len() && s[j] == y;
        assert(s.push(x)[j] == y);
    }
    if x == y {
        assert(s.push(x)[s.len() as int] == y);
    }
    if s.push(x).contains(y) {
        let j = choose|j: int| 0 <= j < s.push(x).len() && s.push(x)[j] == y;
        if j < s.len() {
            assert(s[j] == y);
        }
    }
}

} // verus!
