//! The backend facade: the task and scope tables, and the actions handed to
//! the surrounding runtime.
//!
//! Engine operations never perform outside work themselves.  Whatever the
//! runtime must do — run a task, notify dependents, execute a queued job,
//! propagate scope activity — is returned as [`Action`] values, which the
//! driver performs and feeds back into the engine.

use vstd::prelude::*;
use crate::handle::{ScopeId, TaskId, ValueHandle};
use crate::scope::{spec_dec, spec_inc, Scope};
use crate::task::{Task, TaskScopes, TaskStateType};

verus! {

/// A queued unit of backend work, executed by the runtime at its leisure.
pub enum Job {
    /// Remove the given tasks from one scope.
    RemoveFromScope(Vec<TaskId>, ScopeId),
    /// Remove the given tasks from several scopes; the flag says whether a
    /// root promotion is already underway for their parent.
    RemoveFromScopes(Vec<TaskId>, Vec<ScopeId>, bool),
    /// Promote the task to a dedicated root scope.
    MakeRootScoped(TaskId),
    /// Strip the root scope from a one-shot task that has completed.
    RemoveRootScope(TaskId),
    /// Continue adding queued subgraph frames to a scope.
    AddToScopeQueue(Vec<(Vec<TaskId>, bool)>, usize, ScopeId),
    /// Continue removing queued subgraph frames from a scope.
    RemoveFromScopeQueue(Vec<(Vec<TaskId>, bool)>, usize, ScopeId),
}

/// What a caller must wait for before a read can succeed.
#[derive(Clone, Copy, PartialEq, Eq, Structural, Debug)]
pub enum Listener {
    /// The task's completion event.
    TaskEvent(TaskId),
    /// The scope's "all member tasks finished" event.
    ScopeEvent(ScopeId),
    /// The runtime's foreground job queue draining.
    ForegroundPending,
}

/// Something the runtime must do on the engine's behalf.
pub enum Action {
    /// Run the given task soon.
    Schedule(TaskId),
    /// Invalidate each of these tasks.
    NotifyTasks(Vec<TaskId>),
    /// Wake everything waiting on the given task's completion event.
    TaskDone(TaskId),
    /// Wake everything waiting for this scope's unfinished count to reach
    /// zero.
    ScopeSettled(ScopeId),
    /// Feed `increase_scope_active_by` back in for this scope.
    IncreaseScopeActive(ScopeId, u32),
    /// Feed `decrease_scope_active_by` back in for this scope.
    DecreaseScopeActive(ScopeId, u32),
    /// Queue this job with best-effort, non-blocking semantics.
    BackgroundJob(Job),
    /// Queue this job so that the foreground barrier observes it.
    ForegroundJob(Job),
}

/// `post` extends `pre`: the actions already requested are untouched.
pub open spec fn actions_extended(pre: Seq<Action>, post: Seq<Action>) -> bool {
    &&& post.len() >= pre.len()
    &&& forall|i: int| 0 <= i < pre.len() ==> post[i] == pre[i]
}

/// Every task keeps its child edges, and a root-scoped task keeps its root:
/// only other parts of the tasks change.
pub open spec fn edges_preserved(pre: Seq<Task>, post: Seq<Task>) -> bool {
    &&& forall|i: int|
        0 <= i < pre.len() ==> (#[trigger] post[i]).children == pre[i].children
    &&& forall|i: int|
        0 <= i < pre.len() && pre[i].scopes.spec_is_root() ==> (#[trigger] post[i]).scopes
            == pre[i].scopes
}

/// None of the actions added after `pre` queues a backend job.
pub open spec fn no_new_background_jobs(pre: Seq<Action>, post: Seq<Action>) -> bool {
    forall|i: int|
        pre.len() <= i < post.len() ==> !((#[trigger] post[i]) matches Action::BackgroundJob(_))
}

/// A task whose references all point into the tables.
pub open spec fn valid_task(t: Task, n_tasks: int, n_scopes: int) -> bool {
    &&& t.wf()
    &&& forall|k: int|
        0 <= k < t.scopes.spec_scopes().len() ==> #[trigger] t.scopes.spec_scopes()[k] < n_scopes
    &&& forall|c: TaskId| t.children@.contains(c) ==> c < n_tasks
    &&& forall|d: ValueHandle| t.dependencies@.contains(d) ==> d.spec_task_id() < n_tasks
}

/// A scope whose references all point into the tables.
pub open spec fn valid_scope(s: Scope, n_tasks: int, n_scopes: int) -> bool {
    &&& s.wf()
    &&& forall|k: int|
        0 <= k < s.children.entries().len() ==> (#[trigger] s.children.entries()[k]).0 < n_scopes
    &&& forall|t: TaskId| s.dirty_tasks@.contains(t) ==> t < n_tasks
}

/// The lookup table from ids to tasks and scopes.
pub struct MemoryBackend {
    pub tasks: Vec<Task>,
    pub scopes: Vec<Scope>,
}

/// The tasks of the table that are members of scope `s` and not Done,
/// as a set of table indices.
pub open spec fn unfinished_members(b: MemoryBackend, s: ScopeId) -> Set<int> {
    Set::new(
        |t: int|
            0 <= t < b.spec_num_tasks() && b.tasks@[t].scopes.spec_scopes().contains(s)
                && b.tasks@[t].state_type != TaskStateType::Done,
    )
}

/// The counter of scope `s` agrees with the membership: it equals the
/// number of member tasks that are not Done.  The per-operation contracts
/// keep the two in step: booking a non-Done task in raises the counter,
/// completion and booking out lower it.
pub open spec fn unfinished_count_exact(b: MemoryBackend, s: ScopeId) -> bool {
    b.spec_scope(s).unfinished_tasks == unfinished_members(b, s).len()
}

impl MemoryBackend {
    /// Every task and scope is well-formed, sits at the index its id names,
    /// and references only existing tasks and scopes.
    pub open spec fn wf(&self) -> bool {
        &&& forall|i: int|
            0 <= i < self.tasks@.len() ==> valid_task(
                #[trigger] self.tasks@[i],
                self.tasks@.len() as int,
                self.scopes@.len() as int,
            ) && self.tasks@[i].id == i
        &&& forall|i: int|
            0 <= i < self.scopes@.len() ==> valid_scope(
                #[trigger] self.scopes@[i],
                self.tasks@.len() as int,
                self.scopes@.len() as int,
            )
    }

    /// Number of tasks in the table.
    pub open spec fn spec_num_tasks(&self) -> int {
        self.tasks@.len() as int
    }

    /// Number of scopes in the table.
    pub open spec fn spec_num_scopes(&self) -> int {
        self.scopes@.len() as int
    }

    /// The task with the given id.
    pub open spec fn spec_task(&self, id: TaskId) -> Task {
        self.tasks@[id as int]
    }

    /// The scope with the given id.
    pub open spec fn spec_scope(&self, id: ScopeId) -> Scope {
        self.scopes@[id as int]
    }

    pub fn new() -> (r: Self)
        ensures
            r.wf(),
            r.spec_num_tasks() == 0,
            r.spec_num_scopes() == 0,
    {
        MemoryBackend { tasks: Vec::new(), scopes: Vec::new() }
    }

    pub fn num_tasks(&self) -> (r: usize)
        ensures
            r == self.spec_num_tasks(),
    {
        self.tasks.len()
    }

    pub fn num_scopes(&self) -> (r: usize)
        ensures
            r == self.spec_num_scopes(),
    {
        self.scopes.len()
    }

    /// Creates a fresh, empty, inactive scope and returns its id.
    pub fn create_new_scope(&mut self) -> (r: ScopeId)
        requires
            old(self).wf(),
        ensures
            final(self).wf(),
            r == old(self).spec_num_scopes(),
            final(self).spec_num_scopes() == old(self).spec_num_scopes() + 1,
            final(self).tasks@ == old(self).tasks@,
            final(self).scopes@ == old(self).scopes@.push(final(self).spec_scope(r)),
            final(self).spec_scope(r).active_count == 0,
            final(self).spec_scope(r).tasks == 0,
            final(self).spec_scope(r).unfinished_tasks == 0,
            final(self).spec_scope(r).children.entries().len() == 0,
            final(self).spec_scope(r).dirty_tasks@ == Set::<TaskId>::empty(),
    {
        let id = self.scopes.len();
        self.scopes.push(Scope::new());
        proof {
            let nt = self.tasks@.len() as int;
            let ns = self.scopes@.len() as int;
            assert forall|i: int| 0 <= i < self.tasks@.len() implies valid_task(
                #[trigger] self.tasks@[i],
                nt,
                ns,
            ) && self.tasks@[i].id == i by {
                assert(valid_task(self.tasks@[i], nt, ns - 1));
            }
            assert forall|i: int| 0 <= i < self.scopes@.len() implies valid_scope(
                #[trigger] self.scopes@[i],
                nt,
                ns,
            ) by {
                if i < ns - 1 {
                    assert(valid_scope(old(self).scopes@[i], nt, ns - 1));
                }
            }
        }
        id
    }

    /// Adds a freshly built cached task (dirty, in no scope) to the table and
    /// returns its id.
    pub fn insert_cached_task(&mut self, task: Task) -> (r: TaskId)
        requires
            old(self).wf(),
            task.wf(),
            task.id == old(self).spec_num_tasks(),
            task.scopes matches TaskScopes::Inner(list) && list.entries().len() == 0,
            task.children@ == Set::<TaskId>::empty(),
            task.dependencies@ == Set::<ValueHandle>::empty(),
        ensures
            final(self).wf(),
            r == old(self).spec_num_tasks(),
            final(self).spec_num_tasks() == old(self).spec_num_tasks() + 1,
            final(self).scopes@ == old(self).scopes@,
            final(self).tasks@ == old(self).tasks@.push(task),
    {
        let id = self.tasks.len();
        self.tasks.push(task);
        proof {
            let nt = self.tasks@.len() as int;
            let ns = self.scopes@.len() as int;
            assert forall|i: int| 0 <= i < self.tasks@.len() implies valid_task(
                #[trigger] self.tasks@[i],
                nt,
                ns,
            ) && self.tasks@[i].id == i by {
                if i < nt - 1 {
                    assert(valid_task(old(self).tasks@[i], nt - 1, ns));
                } else {
                    assert(self.tasks@[i] == task);
                }
            }
            assert forall|i: int| 0 <= i < self.scopes@.len() implies valid_scope(
                #[trigger] self.scopes@[i],
                nt,
                ns,
            ) by {
                assert(valid_scope(old(self).scopes@[i], nt - 1, ns));
            }
        }
        id
    }

    /// Adds a freshly built root or one-shot task, already scheduled in its
    /// own new root scope, and returns its id.  The scope's member counters
    /// account for the new task.
    pub fn insert_root_task(&mut self, once: bool) -> (r: TaskId)
        requires
            old(self).wf(),
        ensures
            final(self).wf(),
            r == old(self).spec_num_tasks(),
            final(self).spec_num_tasks() == old(self).spec_num_tasks() + 1,
            final(self).spec_num_scopes() == old(self).spec_num_scopes() + 1,
            final(self).spec_task(r).state_type == TaskStateType::Scheduled,
            final(self).spec_task(r).scopes == TaskScopes::Root(
                old(self).spec_num_scopes() as ScopeId,
            ),
            final(self).spec_task(r).ty == (if once {
                crate::task::TaskType::Once
            } else {
                crate::task::TaskType::Root
            }),
            final(self).spec_scope(old(self).spec_num_scopes() as ScopeId).tasks == 1,
            final(self).spec_scope(old(self).spec_num_scopes() as ScopeId).unfinished_tasks == 1,
            forall|i: int|
                0 <= i < old(self).tasks@.len() ==> final(self).tasks@[i] == old(self).tasks@[i],
            forall|i: int|
                0 <= i < old(self).scopes@.len() ==> final(self).scopes@[i] == old(
                    self,
                ).scopes@[i],
    {
        let scope = self.create_new_scope();
        let id = self.tasks.len();
        let task = if once {
            Task::new_once(id, scope)
        } else {
            Task::new_root(id, scope)
        };
        self.tasks.push(task);
        let s = &mut self.scopes[scope];
        s.increment_tasks();
        s.increment_unfinished_tasks();
        proof {
            let nt = self.tasks@.len() as int;
            let ns = self.scopes@.len() as int;
            assert(self.tasks@[nt - 1].scopes.spec_scopes() =~= seq![scope]);
            assert forall|i: int| 0 <= i < self.tasks@.len() implies valid_task(
                #[trigger] self.tasks@[i],
                nt,
                ns,
            ) && self.tasks@[i].id == i by {
                if i < nt - 1 {
                    assert(valid_task(old(self).tasks@[i], nt - 1, ns - 1));
                    assert(self.tasks@[i] == old(self).tasks@[i]);
                }
            }
            assert forall|i: int| 0 <= i < self.scopes@.len() implies valid_scope(
                #[trigger] self.scopes@[i],
                nt,
                ns,
            ) by {
                if i < ns - 1 {
                    assert(valid_scope(old(self).scopes@[i], nt - 1, ns - 1));
                    assert(self.scopes@[i] == old(self).scopes@[i]);
                }
            }
        }
        id
    }

    /// Sets the lifecycle state of one task, leaving everything else alone.
    pub fn set_task_state(&mut self, id: TaskId, st: TaskStateType)
        requires
            old(self).wf(),
            id < old(self).spec_num_tasks(),
        ensures
            final(self).wf(),
            final(self).scopes@ == old(self).scopes@,
            final(self).tasks@ == old(self).tasks@.update(
                id as int,
                (Task { state_type: st, ..old(self).spec_task(id) }),
            ),
    {
        let t = &mut self.tasks[id];
        t.state_type = st;
        proof {
            lemma_wf_after_task_update(*old(self), *self, id);
        }
    }

    /// Whether the given scope currently has observers.
    pub fn scope_is_active(&self, id: ScopeId) -> (r: bool)
        requires
            self.wf(),
            id < self.spec_num_scopes(),
        ensures
            r == (self.spec_scope(id).active_count > 0),
    {
        self.scopes[id].is_active()
    }

    /// Whether any of the given scopes currently has observers.
    pub fn any_scope_active(&self, ids: &Vec<ScopeId>) -> (r: bool)
        requires
            self.wf(),
            forall|k: int| 0 <= k < ids@.len() ==> #[trigger] ids@[k] < self.spec_num_scopes(),
        ensures
            r == (exists|k: int|
                0 <= k < ids@.len() && self.spec_scope(#[trigger] ids@[k]).active_count > 0),
    {
        let mut i: usize = 0;
        while i < ids.len()
            invariant
                i <= ids@.len(),
                self.wf(),
                forall|k: int| 0 <= k < ids@.len() ==> #[trigger] ids@[k] < self.spec_num_scopes(),
                forall|k: int|
                    0 <= k < i ==> self.spec_scope(#[trigger] ids@[k]).active_count == 0,
            decreases ids@.len() - i,
        {
            if self.scopes[ids[i]].is_active() {
                return true;
            }
            i += 1;
        }
        false
    }

    /// Moves a task from Dirty to Scheduled and asks the runtime to run it;
    /// a task in any other state is left alone.
    pub fn schedule_when_dirty(&mut self, id: TaskId, actions: &mut Vec<Action>)
        requires
            old(self).wf(),
            id < old(self).spec_num_tasks(),
        ensures
            final(self).wf(),
            final(self).scopes@ == old(self).scopes@,
            old(self).spec_task(id).state_type == TaskStateType::Dirty ==> final(self).tasks@
                == old(self).tasks@.update(
                id as int,
                (Task { state_type: TaskStateType::Scheduled, ..old(self).spec_task(id) }),
            ),
            old(self).spec_task(id).state_type != TaskStateType::Dirty ==> final(self).tasks@
                == old(self).tasks@ && final(actions)@ == old(actions)@,
            old(self).spec_task(id).state_type == TaskStateType::Dirty ==> final(actions)@ == old(
                actions,
            )@.push(Action::Schedule(id)),
            actions_extended(old(actions)@, final(actions)@),
            no_new_background_jobs(old(actions)@, final(actions)@),
            edges_preserved(old(self).tasks@, final(self).tasks@),
    {
        let is_dirty = match self.tasks[id].state_type {
            TaskStateType::Dirty => true,
            _ => false,
        };
        if is_dirty {
            self.set_task_state(id, TaskStateType::Scheduled);
            actions.push(Action::Schedule(id));
        }
    }

    /// Raises a scope's observer count by one.
    pub fn increase_scope_active(&mut self, scope: ScopeId, actions: &mut Vec<Action>)
        requires
            old(self).wf(),
            scope < old(self).spec_num_scopes(),
        ensures
            final(self).wf(),
            final(self).spec_num_tasks() == old(self).spec_num_tasks(),
            final(self).spec_num_scopes() == old(self).spec_num_scopes(),
            final(self).spec_scope(scope).active_count == spec_inc(
                old(self).spec_scope(scope).active_count,
            ),
            forall|s: int|
                0 <= s < old(self).scopes@.len() && s != scope ==> final(self).scopes@[s] == old(
                    self,
                ).scopes@[s],
            final(self).spec_scope(scope) == (Scope {
                active_count: final(self).spec_scope(scope).active_count,
                dirty_tasks: final(self).spec_scope(scope).dirty_tasks,
                ..old(self).spec_scope(scope)
            }),
            old(self).spec_scope(scope).active_count > 0 ==> final(self).tasks@ == old(
                self,
            ).tasks@ && final(self).spec_scope(scope).dirty_tasks@ == old(self).spec_scope(
                scope,
            ).dirty_tasks@ && final(actions)@ == old(actions)@,
            old(self).spec_scope(scope).active_count == 0 ==> final(self).spec_scope(
                scope,
            ).dirty_tasks@ == Set::<TaskId>::empty(),
            old(self).spec_scope(scope).active_count == 0 ==> forall|t: TaskId|
                t < old(self).tasks@.len() ==> #[trigger] final(self).tasks@[t as int] == (if old(
                    self,
                ).spec_scope(scope).dirty_tasks@.contains(t) && old(self).tasks@[t as int].state_type
                    == TaskStateType::Dirty {
                    (Task {
                        state_type: TaskStateType::Scheduled,
                        ..old(self).tasks@[t as int]
                    })
                } else {
                    old(self).tasks@[t as int]
                }),
            actions_extended(old(actions)@, final(actions)@),
            no_new_background_jobs(old(actions)@, final(actions)@),
            edges_preserved(old(self).tasks@, final(self).tasks@),
    {
        self.increase_scope_active_by(scope, 1, actions);
    }

    /// Raises a scope's observer count.  When the scope becomes active, its
    /// parked dirty tasks are scheduled and one unit of activity is forwarded
    /// to each child scope through the returned actions.
    pub fn increase_scope_active_by(&mut self, scope: ScopeId, count: u32, actions: &mut Vec<
        Action,
    >)
        requires
            old(self).wf(),
            scope < old(self).spec_num_scopes(),
            count >= 1,
        ensures
            final(self).wf(),
            final(self).spec_num_tasks() == old(self).spec_num_tasks(),
            final(self).spec_num_scopes() == old(self).spec_num_scopes(),
            final(self).spec_scope(scope).active_count == (if old(self).spec_scope(
                scope,
            ).active_count as int + count as int <= u32::MAX {
                (old(self).spec_scope(scope).active_count + count) as u32
            } else {
                u32::MAX
            }),
            forall|s: int|
                0 <= s < old(self).scopes@.len() && s != scope ==> final(self).scopes@[s] == old(
                    self,
                ).scopes@[s],
            final(self).spec_scope(scope) == (Scope {
                active_count: final(self).spec_scope(scope).active_count,
                dirty_tasks: final(self).spec_scope(scope).dirty_tasks,
                ..old(self).spec_scope(scope)
            }),
            old(self).spec_scope(scope).active_count > 0 ==> final(self).tasks@ == old(
                self,
            ).tasks@ && final(self).spec_scope(scope).dirty_tasks@ == old(self).spec_scope(
                scope,
            ).dirty_tasks@ && final(actions)@ == old(actions)@,
            old(self).spec_scope(scope).active_count == 0 ==> final(self).spec_scope(
                scope,
            ).dirty_tasks@ == Set::<TaskId>::empty(),
            old(self).spec_scope(scope).active_count == 0 ==> forall|t: TaskId|
                t < old(self).tasks@.len() ==> #[trigger] final(self).tasks@[t as int] == (if old(
                    self,
                ).spec_scope(scope).dirty_tasks@.contains(t) && old(self).tasks@[t as int].state_type
                    == TaskStateType::Dirty {
                    (Task {
                        state_type: TaskStateType::Scheduled,
                        ..old(self).tasks@[t as int]
                    })
                } else {
                    old(self).tasks@[t as int]
                }),
            old(self).spec_scope(scope).active_count == 0 ==> final(actions)@.len() >= old(
                actions,
            )@.len() + old(self).spec_scope(scope).children.entries().len(),
            old(self).spec_scope(scope).active_count == 0 ==> forall|k: int|
                0 <= k < old(self).spec_scope(scope).children.entries().len() ==> final(actions)@[final(actions)@.len() - old(self).spec_scope(scope).children.entries().len() + k]
                    == Action::IncreaseScopeActive(
                    (#[trigger] old(self).spec_scope(scope).children.entries()[k]).0,
                    1,
                ),
            old(self).spec_scope(scope).active_count == 0 ==> forall|i: int|
                old(actions)@.len() <= i < final(actions)@.len() - old(self).spec_scope(
                    scope,
                ).children.entries().len() ==> ((#[trigger] final(actions)@[i]) matches Action::Schedule(_)),
            actions_extended(old(actions)@, final(actions)@),
            no_new_background_jobs(old(actions)@, final(actions)@),
            edges_preserved(old(self).tasks@, final(self).tasks@),
    {
        let was_active = self.scopes[scope].is_active();
        let ghost pre_scopes = self.scopes@;
        let s = &mut self.scopes[scope];
        s.active_count = s.active_count.saturating_add(count);
        proof {
            lemma_wf_after_scope_update(*old(self), *self, scope);
        }
        if was_active {
            return ;
        }
        // The scope just became active: wake its dirty tasks and forward one
        // unit of activity to every child scope.
        let ghost step1 = *self;
        let dirty = {
            let s = &mut self.scopes[scope];
            let d = s.dirty_tasks.to_vec();
            s.dirty_tasks.clear();
            d
        };
        proof {
            assert(self.scopes@ =~= step1.scopes@.update(scope as int, self.scopes@[scope as int]));
            lemma_wf_after_scope_update(step1, *self, scope);
            old(self).spec_scope(scope).dirty_tasks.lemma_view_is_elems_set();
            assert(valid_scope(
                old(self).scopes@[scope as int],
                old(self).spec_num_tasks(),
                old(self).spec_num_scopes(),
            ));
            assert forall|k: int| 0 <= k < dirty@.len() implies #[trigger] dirty@[k] < old(
                self,
            ).spec_num_tasks() by {
                assert(old(self).spec_scope(scope).dirty_tasks.elems().contains(dirty@[k]));
                assert(old(self).spec_scope(scope).dirty_tasks@.contains(dirty@[k]));
            }
        }
        let children = self.scopes[scope].children.into_scopes();
        proof {
            old(self).spec_scope(scope).dirty_tasks.lemma_wf_elems_no_duplicates();
            assert(dirty@ == old(self).spec_scope(scope).dirty_tasks.elems());
            assert(children@ == old(self).spec_scope(scope).children.entries());
        }
        let ghost mid = *self;
        let ghost acts0 = actions@;
        let mut i: usize = 0;
        while i < dirty.len()
            invariant
                i <= dirty@.len(),
                self.wf(),
                self.spec_num_tasks() == mid.spec_num_tasks(),
                self.spec_num_scopes() == mid.spec_num_scopes(),
                self.scopes@ == mid.scopes@,
                mid.tasks@ == old(self).tasks@,
                dirty@.no_duplicates(),
                forall|k: int| 0 <= k < dirty@.len() ==> #[trigger] dirty@[k] < mid.spec_num_tasks(),
                forall|t: TaskId|
                    t < mid.tasks@.len() ==> #[trigger] self.tasks@[t as int] == (if dirty@.take(
                        i as int,
                    ).contains(t) && old(self).tasks@[t as int].state_type
                        == TaskStateType::Dirty {
                        (Task {
                            state_type: TaskStateType::Scheduled,
                            ..old(self).tasks@[t as int]
                        })
                    } else {
                        old(self).tasks@[t as int]
                    }),
                actions_extended(acts0, actions@),
                no_new_background_jobs(acts0, actions@),
                forall|ii: int|
                    acts0.len() <= ii < actions@.len() ==> ((#[trigger] actions@[ii]) matches Action::Schedule(_)),
                edges_preserved(mid.tasks@, self.tasks@),
            decreases dirty@.len() - i,
        {
            let ghost pre = *self;
            let ghost preacts = actions@;
            self.schedule_when_dirty(dirty[i], actions);
            proof {
                let t0 = dirty@[i as int];
                assert(!dirty@.take(i as int).contains(t0)) by {
                    if dirty@.take(i as int).contains(t0) {
                        let k = choose|k: int|
                            0 <= k < i && dirty@.take(i as int)[k] == t0;
                        assert(dirty@[k] == dirty@[i as int]);
                    }
                }
                assert(pre.tasks@[t0 as int] == old(self).tasks@[t0 as int]);
                assert(dirty@.take(i + 1 as int) =~= dirty@.take(i as int).push(t0));
                assert forall|t: TaskId|
                    t < mid.tasks@.len() implies #[trigger] self.tasks@[t as int] == (if dirty@.take(
                    i + 1 as int,
                ).contains(t) && old(self).tasks@[t as int].state_type == TaskStateType::Dirty {
                    (Task {
                        state_type: TaskStateType::Scheduled,
                        ..old(self).tasks@[t as int]
                    })
                } else {
                    old(self).tasks@[t as int]
                }) by {
                    crate::lifecycle::lemma_push_contains(dirty@.take(i as int), t0, t);
                    if t != t0 {
                        assert(self.tasks@[t as int] == pre.tasks@[t as int]);
                    }
                }
                assert forall|ii: int|
                    acts0.len() <= ii < actions@.len() implies ((#[trigger] actions@[ii]) matches Action::Schedule(_)) by {
                    if ii < preacts.len() {
                        assert(actions@[ii] == preacts[ii]);
                    } else {
                        assert(actions@ == preacts.push(Action::Schedule(t0)));
                        assert(ii == preacts.len());
                    }
                }
            }
            i += 1;
        }
        proof {
            assert(dirty@.take(dirty@.len() as int) =~= dirty@);
        }
        let ghost a1 = actions@;
        let mut j: usize = 0;
        while j < children.len()
            invariant
                j <= children@.len(),
                actions@.len() == a1.len() + j,
                forall|ii: int| 0 <= ii < a1.len() ==> #[trigger] actions@[ii] == a1[ii],
                forall|k: int|
                    0 <= k < j ==> #[trigger] actions@[a1.len() + k]
                        == Action::IncreaseScopeActive(children@[k].0, 1),
                no_new_background_jobs(acts0, actions@),
            decreases children@.len() - j,
        {
            actions.push(Action::IncreaseScopeActive(children[j].0, 1));
            j += 1;
        }
        proof {
            assert(actions_extended(old(actions)@, actions@));
            assert(actions@.len() == a1.len() + children@.len());
            assert forall|t: TaskId| t < old(self).tasks@.len() implies #[trigger] self.tasks@[
                t as int
            ] == (if old(self).spec_scope(scope).dirty_tasks@.contains(t) && old(self).tasks@[
                t as int
            ].state_type == TaskStateType::Dirty {
                (Task { state_type: TaskStateType::Scheduled, ..old(self).tasks@[t as int] })
            } else {
                old(self).tasks@[t as int]
            }) by {
                assert(dirty@.contains(t) == old(self).spec_scope(scope).dirty_tasks@.contains(
                    t,
                ));
            }
        }
    }

    /// Lowers a scope's observer count by one.
    pub fn decrease_scope_active(&mut self, scope: ScopeId, actions: &mut Vec<Action>)
        requires
            old(self).wf(),
            scope < old(self).spec_num_scopes(),
        ensures
            final(self).wf(),
            final(self).spec_num_tasks() == old(self).spec_num_tasks(),
            final(self).spec_num_scopes() == old(self).spec_num_scopes(),
            final(self).tasks@ == old(self).tasks@,
            final(self).spec_scope(scope).active_count == spec_dec(
                old(self).spec_scope(scope).active_count,
            ),
            forall|s: int|
                0 <= s < old(self).scopes@.len() && s != scope ==> final(self).scopes@[s] == old(
                    self,
                ).scopes@[s],
            final(self).spec_scope(scope) == (Scope {
                active_count: final(self).spec_scope(scope).active_count,
                ..old(self).spec_scope(scope)
            }),
            old(self).spec_scope(scope).active_count != 1 ==> final(actions)@ == old(actions)@,
            old(self).spec_scope(scope).active_count == 1 ==> final(actions)@.len() == old(
                actions,
            )@.len() + old(self).spec_scope(scope).children.entries().len() && forall|k: int|
                0 <= k < old(self).spec_scope(scope).children.entries().len() ==> final(actions)@[old(actions)@.len() + k] == Action::DecreaseScopeActive(
                    (#[trigger] old(self).spec_scope(scope).children.entries()[k]).0,
                    1,
                ),
            actions_extended(old(actions)@, final(actions)@),
            no_new_background_jobs(old(actions)@, final(actions)@),
    {
        self.decrease_scope_active_by(scope, 1, actions);
    }

    /// Lowers a scope's observer count.  When the scope stops being active,
    /// one unit of activity is withdrawn from each child scope through the
    /// returned actions.
    pub fn decrease_scope_active_by(&mut self, scope: ScopeId, count: u32, actions: &mut Vec<
        Action,
    >)
        requires
            old(self).wf(),
            scope < old(self).spec_num_scopes(),
            count >= 1,
        ensures
            final(self).wf(),
            final(self).spec_num_tasks() == old(self).spec_num_tasks(),
            final(self).spec_num_scopes() == old(self).spec_num_scopes(),
            final(self).tasks@ == old(self).tasks@,
            final(self).spec_scope(scope).active_count == (if old(self).spec_scope(
                scope,
            ).active_count as int - count as int >= 0 {
                (old(self).spec_scope(scope).active_count - count) as u32
            } else {
                0u32
            }),
            forall|s: int|
                0 <= s < old(self).scopes@.len() && s != scope ==> final(self).scopes@[s] == old(
                    self,
                ).scopes@[s],
            final(self).spec_scope(scope) == (Scope {
                active_count: final(self).spec_scope(scope).active_count,
                ..old(self).spec_scope(scope)
            }),
            !(old(self).spec_scope(scope).active_count > 0 && old(self).spec_scope(
                scope,
            ).active_count <= count) ==> final(actions)@ == old(actions)@,
            (old(self).spec_scope(scope).active_count > 0 && old(self).spec_scope(
                scope,
            ).active_count <= count) ==> final(actions)@.len() == old(actions)@.len() + old(
                self,
            ).spec_scope(scope).children.entries().len() && forall|k: int|
                0 <= k < old(self).spec_scope(scope).children.entries().len() ==> final(actions)@[old(actions)@.len() + k] == Action::DecreaseScopeActive(
                    (#[trigger] old(self).spec_scope(scope).children.entries()[k]).0,
                    1,
                ),
            actions_extended(old(actions)@, final(actions)@),
            no_new_background_jobs(old(actions)@, final(actions)@),
    {
        let was_active = self.scopes[scope].is_active();
        let s = &mut self.scopes[scope];
        s.active_count = s.active_count.saturating_sub(count);
        let now_inactive = s.active_count == 0;
        proof {
            lemma_wf_after_scope_update(*old(self), *self, scope);
        }
        if was_active && now_inactive {
            let children = self.scopes[scope].children.into_scopes();
            proof {
                assert(children@ == old(self).spec_scope(scope).children.entries());
            }
            let ghost acts0 = actions@;
            let mut j: usize = 0;
            while j < children.len()
                invariant
                    j <= children@.len(),
                    actions@.len() == acts0.len() + j,
                    forall|ii: int| 0 <= ii < acts0.len() ==> #[trigger] actions@[ii] == acts0[ii],
                    forall|k: int|
                        0 <= k < j ==> #[trigger] actions@[acts0.len() + k]
                            == Action::DecreaseScopeActive(children@[k].0, 1),
                    no_new_background_jobs(acts0, actions@),
                decreases children@.len() - j,
            {
                actions.push(Action::DecreaseScopeActive(children[j].0, 1));
                j += 1;
            }
        }
    }
}

/// Well-formedness survives replacing one task when the replacement is valid
/// under the same table sizes and keeps its id.
pub proof fn lemma_wf_after_task_update(pre: MemoryBackend, post: MemoryBackend, id: TaskId)
    requires
        pre.wf(),
        id < pre.spec_num_tasks(),
        post.scopes@ == pre.scopes@,
        post.tasks@ == pre.tasks@.update(id as int, post.tasks@[id as int]),
        valid_task(post.tasks@[id as int], pre.spec_num_tasks(), pre.spec_num_scopes()),
        post.tasks@[id as int].id == id,
    ensures
        post.wf(),
{
    let nt = post.tasks@.len() as int;
    let ns = post.scopes@.len() as int;
    assert forall|i: int| 0 <= i < nt implies valid_task(#[trigger] post.tasks@[i], nt, ns)
        && post.tasks@[i].id == i by {
        if i != id {
            assert(post.tasks@[i] == pre.tasks@[i]);
            assert(valid_task(pre.tasks@[i], nt, ns));
        }
    }
    assert forall|i: int| 0 <= i < ns implies valid_scope(#[trigger] post.scopes@[i], nt, ns) by {
        assert(valid_scope(pre.scopes@[i], nt, ns));
    }
}

/// Well-formedness survives replacing one scope when the replacement is
/// valid under the same table sizes.
pub proof fn lemma_wf_after_scope_update(pre: MemoryBackend, post: MemoryBackend, id: ScopeId)
    requires
        pre.wf(),
        id < pre.spec_num_scopes(),
        post.tasks@ == pre.tasks@,
        post.scopes@ == pre.scopes@.update(id as int, post.scopes@[id as int]),
        valid_scope(post.scopes@[id as int], pre.spec_num_tasks(), pre.spec_num_scopes()),
    ensures
        post.wf(),
{
    let nt = post.tasks@.len() as int;
    let ns = post.scopes@.len() as int;
    assert forall|i: int| 0 <= i < nt implies valid_task(#[trigger] post.tasks@[i], nt, ns)
        && post.tasks@[i].id == i by {
        assert(valid_task(pre.tasks@[i], nt, ns));
    }
    assert forall|i: int| 0 <= i < ns implies valid_scope(#[trigger] post.scopes@[i], nt, ns) by {
        if i != id {
            assert(post.scopes@[i] == pre.scopes@[i]);
            assert(valid_scope(pre.scopes@[i], nt, ns));
        }
    }
}

} // verus!
