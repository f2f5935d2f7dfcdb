//! Scope membership updates and the bounded subgraph traversal.
//!
//! Adding or removing a task to or from a scope walks the child graph.  The
//! walk uses an explicit queue of `(children, will_be_optimized)` frames: a
//! long queue is split and the far half handed back to the runtime as a job,
//! and a walk that exhausts its step budget requeues the remainder the same
//! way, so no single call runs unboundedly long.

use vstd::prelude::*;
use crate::backend::{
    edges_preserved, lemma_wf_after_scope_update, lemma_wf_after_task_update, valid_scope,
    valid_task, Action, Job, MemoryBackend,
};
use crate::handle::{ScopeId, TaskId};
use crate::scope::{spec_dec, spec_inc, spec_list_add, spec_list_remove, RemoveResult, Scope};
use crate::task::{Task, TaskScopes, TaskStateType};

verus! {

/// An inner scope list reaching this many distinct scopes triggers a
/// promotion of the task to its own root scope.
pub const SCOPE_OPTIMIZATION_THRESHOLD: usize = 100;

/// A traversal queue is split only when it holds more than this many frames.
pub const SPLIT_MIN_FRAMES: usize = 4;

/// A traversal queue is split only when more than this many children are
/// pending in it.
pub const SPLIT_MIN_PENDING: usize = 100;

/// How many queue frames one call may process before it requeues the rest.
pub const TRAVERSAL_STEP_BUDGET: usize = 4096;

/// Total number of children pending in a traversal queue.
pub open spec fn pending_count(q: Seq<(Vec<TaskId>, bool)>) -> int
    decreases q.len(),
{
    if q.len() == 0 {
        0
    } else {
        q.last().0@.len() + pending_count(q.drop_last())
    }
}

/// Every task id in every frame points into a table of `n_tasks` tasks.
pub open spec fn frames_valid(q: Seq<(Vec<TaskId>, bool)>, n_tasks: int) -> bool {
    forall|i: int, j: int|
        0 <= i < q.len() && 0 <= j < q[i].0@.len() ==> (#[trigger] q[i].0@[j]) < n_tasks
}

/// The pending count is never negative and covers the last frame.
pub proof fn lemma_pending_count_bounds(q: Seq<(Vec<TaskId>, bool)>)
    ensures
        pending_count(q) >= 0,
        q.len() > 0 ==> pending_count(q) >= q.last().0@.len(),
    decreases q.len(),
{
    if q.len() > 0 {
        lemma_pending_count_bounds(q.drop_last());
    }
}

/// How many promotion jobs for `t` a sequence of actions carries.
pub open spec fn count_promotions(s: Seq<Action>, t: TaskId) -> int
    decreases s.len(),
{
    if s.len() == 0 {
        0
    } else {
        (if s.last() matches Action::BackgroundJob(Job::MakeRootScoped(x)) && x == t {
            1int
        } else {
            0int
        }) + count_promotions(s.drop_last(), t)
    }
}

/// `b` keeps every counted inner membership `a` has: an inner-scoped task
/// stays inner-scoped and stays in every scope it was in.
pub open spec fn task_keeps_inner_memberships(a: Task, b: Task) -> bool {
    a.scopes.spec_is_inner() ==> (b.scopes.spec_is_inner() && (forall|s: ScopeId|
        a.scopes.spec_scopes().contains(s) ==> #[trigger] b.scopes.spec_scopes().contains(s)))
}

/// `b` has no counted inner membership beyond those of `a`: an inner-scoped
/// task stays inner-scoped and joins no scope.
pub open spec fn task_gains_no_inner_memberships(a: Task, b: Task) -> bool {
    a.scopes.spec_is_inner() ==> (b.scopes.spec_is_inner() && (forall|s: ScopeId|
        b.scopes.spec_scopes().contains(s) ==> #[trigger] a.scopes.spec_scopes().contains(s)))
}

/// No task's output changes, and no task crosses into or out of Done.
pub open spec fn outputs_and_doneness_kept(pre: Seq<Task>, post: Seq<Task>) -> bool {
    forall|i: int|
        0 <= i < pre.len() ==> ((#[trigger] post[i]).output == pre[i].output && (
        post[i].state_type == TaskStateType::Done) == (pre[i].state_type
            == TaskStateType::Done))
}

/// Keeping outputs and Done-ness is transitive.
pub proof fn lemma_outputs_doneness_kept_trans(a: Seq<Task>, b: Seq<Task>, c: Seq<Task>)
    requires
        outputs_and_doneness_kept(a, b),
        outputs_and_doneness_kept(b, c),
        b.len() == a.len(),
    ensures
        outputs_and_doneness_kept(a, c),
{
}

/// Scope adds only grow memberships: every task keeps the scopes it was in.
pub open spec fn memberships_kept(pre: Seq<Task>, post: Seq<Task>) -> bool {
    forall|i: int|
        0 <= i < pre.len() ==> #[trigger] task_keeps_inner_memberships(pre[i], post[i])
}

/// Scope removes only shrink memberships: no task joins a scope.
pub open spec fn memberships_not_grown(pre: Seq<Task>, post: Seq<Task>) -> bool {
    forall|i: int|
        0 <= i < pre.len() ==> #[trigger] task_gains_no_inner_memberships(pre[i], post[i])
}

/// Every scope other than `scope` keeps its children, its member counters,
/// and loses dirty entries at most.
pub open spec fn scopes_elsewhere_kept(pre: Seq<Scope>, post: Seq<Scope>, scope: int) -> bool {
    forall|s: int|
        0 <= s < pre.len() && s != scope ==> ((#[trigger] post[s]).children == pre[s].children
            && post[s].tasks == pre[s].tasks && post[s].unfinished_tasks
            == pre[s].unfinished_tasks && post[s].dirty_tasks@.subset_of(pre[s].dirty_tasks@))
}

/// Keeping memberships is transitive.
pub proof fn lemma_memberships_kept_trans(a: Seq<Task>, b: Seq<Task>, c: Seq<Task>)
    requires
        memberships_kept(a, b),
        memberships_kept(b, c),
        b.len() == a.len(),
    ensures
        memberships_kept(a, c),
{
    assert forall|i: int| 0 <= i < a.len() implies #[trigger] task_keeps_inner_memberships(
        a[i],
        c[i],
    ) by {
        assert(task_keeps_inner_memberships(a[i], b[i]));
        assert(task_keeps_inner_memberships(b[i], c[i]));
    }
}

/// Gaining no memberships is transitive.
pub proof fn lemma_memberships_not_grown_trans(a: Seq<Task>, b: Seq<Task>, c: Seq<Task>)
    requires
        memberships_not_grown(a, b),
        memberships_not_grown(b, c),
        b.len() == a.len(),
    ensures
        memberships_not_grown(a, c),
{
    assert forall|i: int| 0 <= i < a.len() implies #[trigger] task_gains_no_inner_memberships(
        a[i],
        c[i],
    ) by {
        assert(task_gains_no_inner_memberships(a[i], b[i]));
        assert(task_gains_no_inner_memberships(b[i], c[i]));
    }
}

/// The child has been booked into the scope as far as the shallow add books
/// it: an inner-scoped task is a member (a root-scoped task is handled
/// through its root instead).
pub open spec fn add_child_settled(b: MemoryBackend, scope: ScopeId, c: TaskId) -> bool {
    b.spec_task(c).scopes.spec_is_inner() ==> b.spec_task(c).scopes.spec_scopes().contains(scope)
}

/// Every child listed in the queue's frames has either been booked into
/// the scope or re-emitted inside a queued scope-add job appended to the
/// actions.
pub open spec fn add_queue_discharged(
    q: Seq<(Vec<TaskId>, bool)>,
    b: MemoryBackend,
    scope: ScopeId,
    pre: Seq<Action>,
    post: Seq<Action>,
) -> bool {
    forall|a: int, i: int|
        0 <= a < q.len() && 0 <= i < q[a].0@.len() ==> (add_child_settled(
            b,
            scope,
            #[trigger] q[a].0@[i],
        ) || requeued_add(pre, post, q[a].0@[i]))
}

/// The child has been booked out of the scope as far as the shallow remove
/// books it: one counted occurrence is gone, or it had none to lose.
pub open spec fn remove_child_settled(
    pre: MemoryBackend,
    post: MemoryBackend,
    scope: ScopeId,
    c: TaskId,
) -> bool {
    pre.spec_task(c).scopes.spec_is_inner() ==> (post.spec_task(c).scopes.spec_is_inner() && (
    post.spec_task(c).scopes->Inner_0.count_of(scope) < pre.spec_task(
        c,
    ).scopes->Inner_0.count_of(scope) || pre.spec_task(c).scopes->Inner_0.count_of(scope) == 0))
}

/// No task's counted membership of the scope grows.
pub open spec fn counts_not_grown(pre: Seq<Task>, post: Seq<Task>, scope: ScopeId) -> bool {
    forall|i: int|
        0 <= i < pre.len() ==> ((#[trigger] pre[i]).scopes.spec_is_inner() ==> (
        post[i].scopes.spec_is_inner() && post[i].scopes->Inner_0.count_of(scope)
            <= pre[i].scopes->Inner_0.count_of(scope)))
}

/// Every child listed in the queue's frames has either lost an occurrence
/// of the scope or been re-emitted inside a queued scope-remove job.
pub open spec fn remove_queue_discharged(
    q: Seq<(Vec<TaskId>, bool)>,
    pre_b: MemoryBackend,
    post_b: MemoryBackend,
    scope: ScopeId,
    pre: Seq<Action>,
    post: Seq<Action>,
) -> bool {
    forall|a: int, i: int|
        0 <= a < q.len() && 0 <= i < q[a].0@.len() ==> (remove_child_settled(
            pre_b,
            post_b,
            scope,
            #[trigger] q[a].0@[i],
        ) || requeued_remove(pre, post, q[a].0@[i]))
}

/// Whether some frame of the queue lists the child.
pub open spec fn frames_carry(q: Seq<(Vec<TaskId>, bool)>, c: TaskId) -> bool {
    exists|a: int, b: int| 0 <= a < q.len() && 0 <= b < q[a].0@.len() && (#[trigger] q[a].0@[b]) == c
}

/// Whether the action re-emits the child inside a queued scope-add job.
pub open spec fn action_carries_add_child(act: Action, c: TaskId) -> bool {
    match act {
        Action::ForegroundJob(Job::AddToScopeQueue(q, _n, _s)) => frames_carry(q@, c),
        _ => false,
    }
}

/// Whether the action re-emits the child inside a queued scope-remove job.
pub open spec fn action_carries_remove_child(act: Action, c: TaskId) -> bool {
    match act {
        Action::BackgroundJob(Job::RemoveFromScopeQueue(q, _n, _s)) => frames_carry(q@, c),
        _ => false,
    }
}

/// Whether one of the actions appended after `pre` re-emits the child in a
/// scope-add job.
pub open spec fn requeued_add(pre: Seq<Action>, post: Seq<Action>, c: TaskId) -> bool {
    exists|i: int| pre.len() <= i < post.len() && action_carries_add_child(#[trigger] post[i], c)
}

/// Whether one of the actions appended after `pre` re-emits the child in a
/// scope-remove job.
pub open spec fn requeued_remove(pre: Seq<Action>, post: Seq<Action>, c: TaskId) -> bool {
    exists|i: int|
        pre.len() <= i < post.len() && action_carries_remove_child(#[trigger] post[i], c)
}

/// A requeue note survives appending more actions.
pub proof fn lemma_requeued_extend(pre: Seq<Action>, mid: Seq<Action>, post: Seq<Action>, c: TaskId)
    requires
        pre.len() <= mid.len() <= post.len(),
        forall|i: int| 0 <= i < mid.len() ==> post[i] == mid[i],
    ensures
        requeued_add(pre, mid, c) ==> requeued_add(pre, post, c),
        requeued_remove(pre, mid, c) ==> requeued_remove(pre, post, c),
{
    if requeued_add(pre, mid, c) {
        let i = choose|i: int|
            pre.len() <= i < mid.len() && action_carries_add_child(#[trigger] mid[i], c);
        assert(action_carries_add_child(post[i], c));
    }
    if requeued_remove(pre, mid, c) {
        let i = choose|i: int|
            pre.len() <= i < mid.len() && action_carries_remove_child(#[trigger] mid[i], c);
        assert(action_carries_remove_child(post[i], c));
    }
}

/// How many of the listed scope entries are active in the given scope table.
pub open spec fn count_active_entries(scopes: Seq<Scope>, e: Seq<(ScopeId, u32)>) -> int
    decreases e.len(),
{
    if e.len() == 0 {
        0
    } else {
        (if scopes[e.last().0 as int].active_count > 0 {
            1int
        } else {
            0int
        }) + count_active_entries(scopes, e.drop_last())
    }
}

/// Two scope tables that agree on the activity of every listed scope give
/// the same active-entry count.
pub proof fn lemma_count_active_entries_agree(
    s1: Seq<Scope>,
    s2: Seq<Scope>,
    e: Seq<(ScopeId, u32)>,
)
    requires
        forall|k: int|
            0 <= k < e.len() ==> (s1[(#[trigger] e[k]).0 as int].active_count > 0) == (s2[e[k].0
                as int].active_count > 0),
    ensures
        count_active_entries(s1, e) == count_active_entries(s2, e),
    decreases e.len(),
{
    if e.len() > 0 {
        assert(e[e.len() - 1] == e.last());
        lemma_count_active_entries_agree(s1, s2, e.drop_last());
    }
}

/// Keeping everything elsewhere is transitive.
pub proof fn lemma_scopes_elsewhere_kept_trans(a: Seq<Scope>, b: Seq<Scope>, c: Seq<Scope>, scope: int)
    requires
        scopes_elsewhere_kept(a, b, scope),
        scopes_elsewhere_kept(b, c, scope),
        b.len() == a.len(),
    ensures
        scopes_elsewhere_kept(a, c, scope),
{
}

/// Counting promotion jobs distributes over extending the actions by one.
pub proof fn lemma_count_promotions_push(s: Seq<Action>, a: Action, t: TaskId)
    ensures
        count_promotions(s.push(a), t) == count_promotions(s, t) + (
        if a matches Action::BackgroundJob(Job::MakeRootScoped(x)) && x == t {
            1int
        } else {
            0int
        }),
{
    assert(s.push(a).drop_last() =~= s);
}

impl MemoryBackend {
    /// Books the task as a new member of the scope: one more member task,
    /// one more unfinished member unless the task is Done, and — for a Dirty
    /// task — either a schedule request (scope observed) or an entry in the
    /// scope's dirty set (scope unobserved).  Returns whether the caller
    /// must schedule the task.
    pub fn add_self_to_new_scope(&mut self, id: TaskId, scope: ScopeId) -> (schedule_self: bool)
        requires
            old(self).wf(),
            id < old(self).spec_num_tasks(),
            scope < old(self).spec_num_scopes(),
        ensures
            final(self).wf(),
            final(self).tasks@.len() == old(self).tasks@.len(),
            final(self).scopes@.len() == old(self).scopes@.len(),
            schedule_self == (old(self).spec_task(id).state_type == TaskStateType::Dirty && old(
                self,
            ).spec_scope(scope).active_count > 0),
            final(self).scopes@ == old(self).scopes@.update(
                scope as int,
                final(self).spec_scope(scope),
            ),
            final(self).spec_scope(scope).tasks == spec_inc(old(self).spec_scope(scope).tasks),
            final(self).spec_scope(scope).unfinished_tasks == (if old(self).spec_task(
                id,
            ).state_type != TaskStateType::Done {
                spec_inc(old(self).spec_scope(scope).unfinished_tasks)
            } else {
                old(self).spec_scope(scope).unfinished_tasks
            }),
            final(self).spec_scope(scope).dirty_tasks@ == (if old(self).spec_task(id).state_type
                == TaskStateType::Dirty && old(self).spec_scope(scope).active_count == 0 {
                old(self).spec_scope(scope).dirty_tasks@.insert(id)
            } else {
                old(self).spec_scope(scope).dirty_tasks@
            }),
            final(self).spec_scope(scope).active_count == old(self).spec_scope(
                scope,
            ).active_count,
            final(self).spec_scope(scope).children == old(self).spec_scope(scope).children,
            final(self).tasks@ == (if schedule_self {
                old(self).tasks@.update(
                    id as int,
                    (Task {
                        state_type: TaskStateType::Scheduled,
                        ..old(self).spec_task(id)
                    }),
                )
            } else {
                old(self).tasks@
            }),
    {
        let state = self.tasks[id].state_type;
        let is_done = match state {
            TaskStateType::Done => true,
            _ => false,
        };
        let is_dirty = match state {
            TaskStateType::Dirty => true,
            _ => false,
        };
        let mut schedule_self: bool = false;
        {
            let sc = &mut self.scopes[scope];
            sc.increment_tasks();
            if !is_done {
                sc.increment_unfinished_tasks();
                if is_dirty {
                    if sc.is_active() {
                        schedule_self = true;
                    } else {
                        sc.add_dirty_task(id);
                    }
                }
            }
        }
        proof {
            lemma_wf_after_scope_update(*old(self), *self, scope);
        }
        if schedule_self {
            self.set_task_state(id, TaskStateType::Scheduled);
        }
        schedule_self
    }

    /// Adds the task to the scope without recursing into its children.
    ///
    /// A root-scoped task records the scope as a parent of its root scope
    /// instead, propagating observation when the parent is observed.  An
    /// inner-scoped task counts the membership; when the scope is new for
    /// the task, the task books itself into the scope and hands back its
    /// children for the caller to continue with.  An inner list that reaches
    /// the optimization threshold queues exactly one promotion job, and
    /// later additions do not queue another while the promotion is pending.
    pub fn add_to_scope_internal_shallow(
        &mut self,
        id: TaskId,
        scope: ScopeId,
        will_be_optimized: bool,
        actions: &mut Vec<Action>,
    ) -> (r: Option<(Vec<TaskId>, bool)>)
        requires
            old(self).wf(),
            id < old(self).spec_num_tasks(),
            scope < old(self).spec_num_scopes(),
        ensures
            final(self).wf(),
            final(self).tasks@.len() == old(self).tasks@.len(),
            final(self).scopes@.len() == old(self).scopes@.len(),
            edges_preserved(old(self).tasks@, final(self).tasks@),
            count_promotions(final(actions)@, id) - count_promotions(old(actions)@, id) == (
            match old(self).spec_task(id).scopes {
                TaskScopes::Inner(list) => if !list.has(scope) && !will_be_optimized
                    && list.entries().len() + 1 == SCOPE_OPTIMIZATION_THRESHOLD {
                    1int
                } else {
                    0int
                },
                TaskScopes::Root(_) => 0int,
            }),
            old(self).spec_task(id).scopes matches TaskScopes::Inner(list) ==> (match r {
                Some(p) => !list.has(scope) && p.0@ == old(self).spec_task(id).children.elems()
                    && p.0@.len() > 0,
                None => list.has(scope) || old(self).spec_task(id).children.elems().len() == 0,
            }),
            old(self).spec_task(id).scopes matches TaskScopes::Inner(list) ==> (list.count_of(
                scope,
            ) < u32::MAX ==> (final(self).spec_task(id).scopes matches TaskScopes::Inner(l2)
                && l2.entries() == spec_list_add(list.entries(), scope))),
            old(self).spec_task(id).scopes.spec_is_root() ==> r is None && final(self).tasks@.len()
                == old(self).tasks@.len(),
            old(self).spec_task(id).scopes matches TaskScopes::Inner(list) ==> (!list.has(scope)
                ==> final(self).spec_scope(scope).tasks == spec_inc(old(self).spec_scope(
                scope,
            ).tasks) && final(self).spec_scope(scope).unfinished_tasks == (if old(self).spec_task(
                id,
            ).state_type != TaskStateType::Done {
                spec_inc(old(self).spec_scope(scope).unfinished_tasks)
            } else {
                old(self).spec_scope(scope).unfinished_tasks
            })),
            old(self).spec_task(id).scopes matches TaskScopes::Inner(list) ==> (list.has(scope)
                ==> final(self).scopes@ == old(self).scopes@ && final(actions)@ == old(actions)@),
            old(self).spec_task(id).scopes.spec_is_inner() ==> forall|t: ScopeId|
                t < old(self).scopes@.len() && crate::backend::unfinished_count_exact(
                    *old(self),
                    t,
                ) && old(self).scopes@[t as int].unfinished_tasks < u32::MAX
                    ==> #[trigger] crate::backend::unfinished_count_exact(*final(self), t),
            old(self).spec_task(id).scopes.spec_is_inner() ==> final(self).spec_task(
                id,
            ).scopes.spec_is_inner() && final(self).spec_task(id).scopes.spec_scopes().contains(
                scope,
            ),
            old(self).spec_task(id).scopes matches TaskScopes::Inner(list) ==> (r matches Some(p)
                ==> p.1 == (will_be_optimized || list.entries().len() + 1
                == SCOPE_OPTIMIZATION_THRESHOLD)),
            old(self).spec_task(id).scopes matches TaskScopes::Inner(list) ==> (list.has(scope)
                ==> final(self).tasks@ == old(self).tasks@.update(
                id as int,
                (Task { scopes: final(self).spec_task(id).scopes, ..old(self).spec_task(id) }),
            )),
            old(self).spec_task(id).scopes.spec_is_inner() ==> forall|i: int|
                0 <= i < old(self).tasks@.len() && i != id ==> #[trigger] final(self).tasks@[i]
                    == old(self).tasks@[i],
            old(self).spec_task(id).scopes.spec_is_inner() ==> forall|s: int|
                0 <= s < old(self).scopes@.len() && s != scope ==> #[trigger] final(self).scopes@[s] == old(self).scopes@[s],
            old(self).spec_task(id).scopes matches TaskScopes::Inner(list) ==> (!list.has(scope)
                ==> (final(self).spec_scope(scope).active_count == old(self).spec_scope(
                scope,
            ).active_count && final(self).spec_scope(scope).children == old(self).spec_scope(
                scope,
            ).children && final(self).spec_scope(scope).dirty_tasks@ == (if old(self).spec_task(
                id,
            ).state_type == TaskStateType::Dirty && old(self).spec_scope(scope).active_count == 0 {
                old(self).spec_scope(scope).dirty_tasks@.insert(id)
            } else {
                old(self).spec_scope(scope).dirty_tasks@
            }))),
            old(self).spec_task(id).scopes matches TaskScopes::Inner(list) ==> (!list.has(scope)
                ==> (final(self).spec_task(id).state_type == (if old(self).spec_task(
                id,
            ).state_type == TaskStateType::Dirty && old(self).spec_scope(scope).active_count > 0 {
                TaskStateType::Scheduled
            } else {
                old(self).spec_task(id).state_type
            }) && final(self).spec_task(id) == (Task {
                scopes: final(self).spec_task(id).scopes,
                state_type: final(self).spec_task(id).state_type,
                ..old(self).spec_task(id)
            }))),
            old(self).spec_task(id).scopes matches TaskScopes::Root(rt) ==> (rt == scope ==> final(self).tasks@ == old(self).tasks@ && final(self).scopes@ == old(self).scopes@
                && final(actions)@ == old(actions)@),
            old(self).spec_task(id).scopes.spec_is_root() ==> forall|i: int|
                0 <= i < old(self).tasks@.len() ==> (#[trigger] final(self).tasks@[i]).scopes
                    == old(self).tasks@[i].scopes,
            old(self).spec_task(id).scopes matches TaskScopes::Root(rt) ==> (rt != scope ==> (
            final(self).spec_scope(scope).children.entries() == (if old(self).spec_scope(
                scope,
            ).children.count_of(rt) < u32::MAX {
                spec_list_add(old(self).spec_scope(scope).children.entries(), rt)
            } else {
                old(self).spec_scope(scope).children.entries()
            }) && final(self).spec_scope(scope) == (Scope {
                children: final(self).spec_scope(scope).children,
                ..old(self).spec_scope(scope)
            }))),
            old(self).spec_task(id).scopes matches TaskScopes::Root(rt) ==> (rt != scope ==> forall|s: int|
                0 <= s < old(self).scopes@.len() && s != scope && s != rt ==> #[trigger] final(self).scopes@[s] == old(self).scopes@[s]),
            old(self).spec_task(id).scopes matches TaskScopes::Root(rt) ==> ((rt != scope && (old(
                self,
            ).spec_scope(scope).children.has(rt) || old(self).spec_scope(scope).active_count == 0))
                ==> final(self).tasks@ == old(self).tasks@ && final(actions)@ == old(actions)@
                && (forall|s: int|
                0 <= s < old(self).scopes@.len() && s != scope ==> #[trigger] final(self).scopes@[s] == old(self).scopes@[s])),
            old(self).spec_task(id).scopes matches TaskScopes::Root(rt) ==> ((rt != scope && !old(
                self,
            ).spec_scope(scope).children.has(rt) && old(self).spec_scope(scope).active_count > 0)
                ==> final(self).spec_scope(rt).active_count == spec_inc(old(self).spec_scope(
                rt,
            ).active_count)),
            memberships_kept(old(self).tasks@, final(self).tasks@),
            scopes_elsewhere_kept(old(self).scopes@, final(self).scopes@, scope as int),
            final(self).spec_scope(scope).active_count == old(self).spec_scope(
                scope,
            ).active_count,
            crate::backend::actions_extended(old(actions)@, final(actions)@),
            old(self).spec_task(id).scopes.spec_is_inner() ==> forall|i: int|
                0 <= i < old(self).tasks@.len() && i != id ==> (#[trigger] final(self).tasks@[i]).scopes == old(self).tasks@[i].scopes,
            outputs_and_doneness_kept(old(self).tasks@, final(self).tasks@),
            final(self).spec_scope(scope).tasks >= old(self).spec_scope(scope).tasks,
            final(self).spec_scope(scope).unfinished_tasks >= old(self).spec_scope(
                scope,
            ).unfinished_tasks,
    {
        let is_root = self.tasks[id].scopes.is_root();
        if is_root {
            // The task already has a dedicated root scope: make that root a
            // child of the new parent scope instead of walking the subgraph.
            let root = match self.tasks[id].scopes {
                TaskScopes::Root(r) => r,
                TaskScopes::Inner(_) => 0,
            };
            proof {
                assert(valid_task(
                    self.tasks@[id as int],
                    self.spec_num_tasks(),
                    self.spec_num_scopes(),
                ));
                assert(self.spec_task(id).scopes.spec_scopes()[0] == root);
            }
            if root != scope {
                let propagate = {
                    let sc = &mut self.scopes[scope];
                    sc.add_child(root)
                };
                proof {
                    let pre_sc = old(self).spec_scope(scope);
                    let post_sc = self.scopes@[scope as int];
                    assert(valid_scope(
                        pre_sc,
                        old(self).spec_num_tasks(),
                        old(self).spec_num_scopes(),
                    ));
                    assert forall|k: int|
                        0 <= k < post_sc.children.entries().len() implies (
                    #[trigger] post_sc.children.entries()[k]).0 < old(self).spec_num_scopes() by {
                        let pre_e = pre_sc.children.entries();
                        let post_e = post_sc.children.entries();
                        if pre_sc.children.count_of(root) < u32::MAX {
                            assert(post_e == crate::scope::spec_list_add(pre_e, root));
                            if crate::scope::spec_has_scope(pre_e, root) {
                                let j = crate::scope::spec_scope_index(pre_e, root);
                                if k == j {
                                    assert(post_e[k].0 == root);
                                } else {
                                    assert(post_e[k] == pre_e[k]);
                                }
                            } else {
                                if k < pre_e.len() {
                                    assert(post_e[k] == pre_e[k]);
                                } else {
                                    assert(post_e[k].0 == root);
                                }
                            }
                        } else {
                            assert(post_e == pre_e);
                        }
                    }
                    lemma_wf_after_scope_update(*old(self), *self, scope);
                }
                if propagate {
                    self.increase_scope_active(root, actions);
                }
            }
            proof {
                lemma_count_promotions_delta_zero(old(actions)@, actions@, id);
            }
            return None;
        }
        let ghost list0 = old(self).spec_task(id).scopes->Inner_0;
        proof {
            crate::scope::lemma_count_at_index(list0.entries(), scope);
        }
        let newly = {
            let t = &mut self.tasks[id];
            match &mut t.scopes {
                TaskScopes::Inner(list) => list.add(scope),
                TaskScopes::Root(_) => false,
            }
        };
        proof {
            if list0.count_of(scope) < u32::MAX {
                crate::scope::lemma_add_count_effect(list0.entries(), scope);
            }
            assert forall|k: int|
                0 <= k < self.spec_task(id).scopes.spec_scopes().len() implies #[trigger] self.spec_task(
                id,
            ).scopes.spec_scopes()[k] < self.spec_num_scopes() by {
                let m0 = old(self).spec_task(id).scopes.spec_scopes();
                let m1 = self.spec_task(id).scopes.spec_scopes();
                if k < m0.len() {
                    assert(m1[k] == m0[k]);
                    assert(valid_task(
                        old(self).tasks@[id as int],
                        old(self).spec_num_tasks(),
                        old(self).spec_num_scopes(),
                    ));
                } else {
                    assert(m1[k] == scope);
                }
            }
            lemma_wf_after_task_update(*old(self), *self, id);
        }
        if !newly {
            proof {
                lemma_count_promotions_delta_zero(old(actions)@, actions@, id);
                let m1 = old(self).spec_task(id).scopes.spec_scopes();
                let m2 = self.spec_task(id).scopes.spec_scopes();
                assert(m2 =~= m1);
                assert(m2.contains(scope)) by {
                    let j = crate::scope::spec_scope_index(list0.entries(), scope);
                    assert(list0.entries()[j].0 == scope);
                    assert(m1[j] == scope);
                }
                assert forall|t: ScopeId|
                    t < old(self).scopes@.len() && crate::backend::unfinished_count_exact(
                        *old(self),
                        t,
                    ) && old(self).scopes@[t as int].unfinished_tasks
                        < u32::MAX implies #[trigger] crate::backend::unfinished_count_exact(
                    *self,
                    t,
                ) by {
                    assert(crate::backend::unfinished_members(*self, t)
                        =~= crate::backend::unfinished_members(*old(self), t));
                }
            }
            return None;
        }
        let mut wbo = will_be_optimized;
        let list_len = match &self.tasks[id].scopes {
            TaskScopes::Inner(list) => list.len(),
            TaskScopes::Root(_) => 0,
        };
        proof {
            assert(self.spec_task(id).scopes->Inner_0.entries() == list0.entries().push(
                (scope, 1u32),
            ));
            assert(list_len == list0.entries().len() + 1);
        }
        let ghost before_job = actions@;
        if !wbo && list_len == SCOPE_OPTIMIZATION_THRESHOLD {
            actions.push(Action::BackgroundJob(Job::MakeRootScoped(id)));
            wbo = true;
            proof {
                lemma_count_promotions_push(
                    before_job,
                    Action::BackgroundJob(Job::MakeRootScoped(id)),
                    id,
                );
                lemma_count_promotions_delta_zero(old(actions)@, before_job, id);
            }
        } else {
            proof {
                lemma_count_promotions_delta_zero(old(actions)@, before_job, id);
            }
        }
        let children = self.tasks[id].children.to_vec();
        let ghost mid = *self;
        let ghost acts1 = actions@;
        let schedule_self = self.add_self_to_new_scope(id, scope);
        if schedule_self {
            actions.push(Action::Schedule(id));
        }
        proof {
            lemma_count_promotions_delta_zero(acts1, actions@, id);
            let b1 = *old(self);
            let b2 = *self;
            let m1 = b1.spec_task(id).scopes.spec_scopes();
            let m2 = b2.spec_task(id).scopes.spec_scopes();
            assert(m2 =~= m1.push(scope));
            assert(!m1.contains(scope)) by {
                if m1.contains(scope) {
                    let k = choose|k: int| 0 <= k < m1.len() && m1[k] == scope;
                    assert(list0.entries()[k].0 == scope);
                }
            }
            assert(m2.contains(scope)) by {
                assert(m2[m1.len() as int] == scope);
            }
            assert(memberships_kept(old(self).tasks@, self.tasks@)) by {
                assert forall|i: int|
                    0 <= i < old(self).tasks@.len() implies #[trigger] task_keeps_inner_memberships(
                    old(self).tasks@[i],
                    self.tasks@[i],
                ) by {
                    if i == id {
                        assert forall|t: ScopeId| m1.contains(t) implies m2.contains(t) by {
                            let k = choose|k: int| 0 <= k < m1.len() && m1[k] == t;
                            assert(m2[k] == t);
                        }
                    } else {
                        assert(self.tasks@[i] == old(self).tasks@[i]);
                    }
                }
            }
            assert((b2.spec_task(id).state_type != TaskStateType::Done) == (b1.spec_task(
                id,
            ).state_type != TaskStateType::Done));
            assert forall|t: ScopeId|
                t < b1.scopes@.len() && crate::backend::unfinished_count_exact(b1, t)
                    && b1.scopes@[t as int].unfinished_tasks
                    < u32::MAX implies #[trigger] crate::backend::unfinished_count_exact(
                b2,
                t,
            ) by {
                crate::lifecycle::lemma_push_contains(m1, scope, t);
                if t != scope {
                    assert(b2.scopes@[t as int] == b1.scopes@[t as int]);
                }
                crate::laws::lemma_membership_change_keeps_count_exact(b1, b2, id, t);
            }
        }
        if children.len() != 0 {
            Some((children, wbo))
        } else {
            None
        }
    }

    /// Adds the task and, transitively, its children to the scope, walking
    /// the subgraph with the bounded traversal queue.
    pub fn add_to_scope_internal(
        &mut self,
        id: TaskId,
        scope: ScopeId,
        will_be_optimized: bool,
        actions: &mut Vec<Action>,
    )
        requires
            old(self).wf(),
            id < old(self).spec_num_tasks(),
            scope < old(self).spec_num_scopes(),
        ensures
            final(self).wf(),
            final(self).tasks@.len() == old(self).tasks@.len(),
            final(self).scopes@.len() == old(self).scopes@.len(),
            edges_preserved(old(self).tasks@, final(self).tasks@),
            memberships_kept(old(self).tasks@, final(self).tasks@),
            scopes_elsewhere_kept(old(self).scopes@, final(self).scopes@, scope as int),
            final(self).spec_scope(scope).active_count == old(self).spec_scope(
                scope,
            ).active_count,
            outputs_and_doneness_kept(old(self).tasks@, final(self).tasks@),
            final(self).spec_scope(scope).tasks >= old(self).spec_scope(scope).tasks,
            final(self).spec_scope(scope).unfinished_tasks >= old(self).spec_scope(
                scope,
            ).unfinished_tasks,
            old(self).spec_task(id).scopes.spec_is_inner() ==> final(self).spec_task(
                id,
            ).scopes.spec_is_inner() && final(self).spec_task(id).scopes.spec_scopes().contains(
                scope,
            ),
            old(self).spec_task(id).scopes matches TaskScopes::Root(rt) ==> (rt == scope ==> final(self).tasks@ == old(self).tasks@ && final(self).scopes@ == old(self).scopes@
                && final(actions)@ == old(actions)@),
            old(self).spec_task(id).scopes matches TaskScopes::Root(rt) ==> (rt != scope ==> (
            final(self).spec_scope(scope).children.entries() == (if old(self).spec_scope(
                scope,
            ).children.count_of(rt) < u32::MAX {
                spec_list_add(old(self).spec_scope(scope).children.entries(), rt)
            } else {
                old(self).spec_scope(scope).children.entries()
            }) && (forall|s: int|
                0 <= s < old(self).scopes@.len() && s != scope && s != rt ==> #[trigger] final(self).scopes@[s] == old(self).scopes@[s]))),
            old(self).spec_task(id).scopes.spec_is_root() ==> forall|i: int|
                0 <= i < old(self).tasks@.len() ==> (#[trigger] final(self).tasks@[i]).scopes
                    == old(self).tasks@[i].scopes,
            old(self).spec_task(id).children.elems().len() == 0 ==> (old(self).spec_task(
                id,
            ).scopes matches TaskScopes::Inner(list) ==> ((list.count_of(scope) < u32::MAX ==> (
            final(self).spec_task(id).scopes matches TaskScopes::Inner(l2) && l2.entries()
                == spec_list_add(list.entries(), scope))) && (list.has(scope) ==> final(self).scopes@ == old(self).scopes@ && final(actions)@ == old(actions)@ && final(self).tasks@
                == old(self).tasks@.update(
                id as int,
                (Task { scopes: final(self).spec_task(id).scopes, ..old(self).spec_task(id) }),
            )) && (!list.has(scope) ==> (final(self).spec_scope(scope).tasks == spec_inc(
                old(self).spec_scope(scope).tasks,
            ) && final(self).spec_scope(scope).unfinished_tasks == (if old(self).spec_task(
                id,
            ).state_type != TaskStateType::Done {
                spec_inc(old(self).spec_scope(scope).unfinished_tasks)
            } else {
                old(self).spec_scope(scope).unfinished_tasks
            }) && final(self).spec_scope(scope).dirty_tasks@ == (if old(self).spec_task(
                id,
            ).state_type == TaskStateType::Dirty && old(self).spec_scope(scope).active_count == 0 {
                old(self).spec_scope(scope).dirty_tasks@.insert(id)
            } else {
                old(self).spec_scope(scope).dirty_tasks@
            }) && final(self).spec_scope(scope).children == old(self).spec_scope(scope).children
                && (forall|s: int|
                0 <= s < old(self).scopes@.len() && s != scope ==> #[trigger] final(self).scopes@[s] == old(self).scopes@[s]) && (forall|i: int|
                0 <= i < old(self).tasks@.len() && i != id ==> #[trigger] final(self).tasks@[i]
                    == old(self).tasks@[i]) && final(self).spec_task(id).state_type == (if old(
                self,
            ).spec_task(id).state_type == TaskStateType::Dirty && old(self).spec_scope(
                scope,
            ).active_count > 0 {
                TaskStateType::Scheduled
            } else {
                old(self).spec_task(id).state_type
            }) && final(self).spec_task(id) == (Task {
                scopes: final(self).spec_task(id).scopes,
                state_type: final(self).spec_task(id).state_type,
                ..old(self).spec_task(id)
            }))))),
    {
        let r = self.add_to_scope_internal_shallow(id, scope, will_be_optimized, actions);
        let ghost mid = *self;
        match r {
            Some((children, wbo)) => {
                let queue_size = children.len();
                let mut queue: Vec<(Vec<TaskId>, bool)> = Vec::new();
                queue.push((children, wbo));
                proof {
                    assert(queue@.drop_last() =~= Seq::<(Vec<TaskId>, bool)>::empty());
                    assert(pending_count(Seq::<(Vec<TaskId>, bool)>::empty()) == 0);
                    assert(pending_count(queue@) == queue@.last().0@.len());
                    lemma_frame_entries_valid(*old(self), *self, id, queue@[0].0@);
                    assert forall|a: int, b: int|
                        0 <= a < queue@.len() && 0 <= b < queue@[a].0@.len() implies (
                    #[trigger] queue@[a].0@[b]) < self.spec_num_tasks() by {
                        assert(a == 0);
                    }
                }
                run_add_to_scope_queue(queue, queue_size, scope, self, actions);
                proof {
                    lemma_memberships_kept_trans(old(self).tasks@, mid.tasks@, self.tasks@);
                    lemma_outputs_doneness_kept_trans(old(self).tasks@, mid.tasks@, self.tasks@);
                    lemma_scopes_elsewhere_kept_trans(
                        old(self).scopes@,
                        mid.scopes@,
                        self.scopes@,
                        scope as int,
                    );
                    if old(self).spec_task(id).scopes.spec_is_inner() {
                        assert(task_keeps_inner_memberships(
                            mid.tasks@[id as int],
                            self.tasks@[id as int],
                        ));
                    }
                }
            }
            None => {}
        }
    }

    /// Removes the task from the scope without recursing into its children.
    ///
    /// A root-scoped task withdraws the scope from its root's parents
    /// instead.  An inner-scoped task lowers its membership count; when the
    /// last occurrence leaves, the scope's member counters are lowered, the
    /// task leaves the scope's dirty set, and the task's children are handed
    /// back for the caller to continue with.  A task that is not a member at
    /// all is deliberately left unchanged: concurrent subgraph walks may
    /// visit a task after another walk has already booked it out, and such
    /// a visit must be harmless rather than an invariant violation.
    pub fn remove_from_scope_internal_shallow(
        &mut self,
        id: TaskId,
        scope: ScopeId,
        will_be_optimized: bool,
        actions: &mut Vec<Action>,
    ) -> (r: Option<(Vec<TaskId>, bool)>)
        requires
            old(self).wf(),
            id < old(self).spec_num_tasks(),
            scope < old(self).spec_num_scopes(),
        ensures
            final(self).wf(),
            final(self).tasks@.len() == old(self).tasks@.len(),
            final(self).scopes@.len() == old(self).scopes@.len(),
            old(self).spec_task(id).scopes.spec_is_root() ==> r is None,
            old(self).spec_task(id).scopes matches TaskScopes::Inner(list) ==> (final(self).spec_task(id).scopes matches TaskScopes::Inner(l2) && l2.entries()
                == spec_list_remove(list.entries(), scope)),
            old(self).spec_task(id).scopes matches TaskScopes::Inner(list) ==> (match r {
                Some(p) => list.count_of(scope) == 1 && p.0@ == old(self).spec_task(
                    id,
                ).children.elems() && p.0@.len() > 0,
                None => list.count_of(scope) != 1 || old(self).spec_task(
                    id,
                ).children.elems().len() == 0,
            }),
            old(self).spec_task(id).scopes matches TaskScopes::Inner(list) ==> (list.count_of(
                scope,
            ) == 1 ==> final(self).spec_scope(scope).tasks == spec_dec(old(self).spec_scope(
                scope,
            ).tasks) && final(self).spec_scope(scope).unfinished_tasks == (if old(self).spec_task(
                id,
            ).state_type != TaskStateType::Done {
                spec_dec(old(self).spec_scope(scope).unfinished_tasks)
            } else {
                old(self).spec_scope(scope).unfinished_tasks
            })),
            old(self).spec_task(id).scopes matches TaskScopes::Inner(list) ==> (list.count_of(
                scope,
            ) != 1 ==> final(self).scopes@ == old(self).scopes@),
            old(self).spec_task(id).scopes.spec_is_inner() ==> forall|t: ScopeId|
                t < old(self).scopes@.len() && crate::backend::unfinished_count_exact(
                    *old(self),
                    t,
                ) && old(self).scopes@[t as int].unfinished_tasks < u32::MAX
                    ==> #[trigger] crate::backend::unfinished_count_exact(*final(self), t),
            old(self).spec_task(id).scopes matches TaskScopes::Inner(list) ==> (list.count_of(
                scope,
            ) == 1 ==> (final(self).spec_scope(scope).dirty_tasks@ == old(self).spec_scope(
                scope,
            ).dirty_tasks@.remove(id) && final(self).spec_scope(scope) == (Scope {
                tasks: final(self).spec_scope(scope).tasks,
                unfinished_tasks: final(self).spec_scope(scope).unfinished_tasks,
                dirty_tasks: final(self).spec_scope(scope).dirty_tasks,
                ..old(self).spec_scope(scope)
            }))),
            old(self).spec_task(id).scopes.spec_is_inner() ==> forall|s: int|
                0 <= s < old(self).scopes@.len() && s != scope ==> #[trigger] final(self).scopes@[s] == old(self).scopes@[s],
            old(self).spec_task(id).scopes.spec_is_inner() ==> forall|i: int|
                0 <= i < old(self).tasks@.len() && i != id ==> #[trigger] final(self).tasks@[i]
                    == old(self).tasks@[i],
            old(self).spec_task(id).scopes.spec_is_inner() ==> final(self).spec_task(id) == (Task {
                scopes: final(self).spec_task(id).scopes,
                ..old(self).spec_task(id)
            }),
            old(self).spec_task(id).scopes matches TaskScopes::Inner(list) ==> (final(self).spec_task(id).scopes.spec_scopes().contains(scope) <==> list.count_of(scope) > 1),
            old(self).spec_task(id).scopes matches TaskScopes::Inner(list) ==> (!list.has(scope)
                ==> final(self).tasks@ == old(self).tasks@ && final(self).scopes@ == old(
                self,
            ).scopes@ && final(actions)@ == old(actions)@),
            old(self).spec_task(id).scopes.spec_is_root() ==> forall|i: int|
                0 <= i < old(self).tasks@.len() ==> (#[trigger] final(self).tasks@[i]).scopes
                    == old(self).tasks@[i].scopes,
            memberships_not_grown(old(self).tasks@, final(self).tasks@),
            scopes_elsewhere_kept(old(self).scopes@, final(self).scopes@, scope as int),
            final(self).spec_scope(scope).active_count == old(self).spec_scope(
                scope,
            ).active_count,
            crate::backend::actions_extended(old(actions)@, final(actions)@),
            old(self).spec_task(id).scopes matches TaskScopes::Root(rt) ==> (rt == scope ==> final(self).tasks@ == old(self).tasks@ && final(self).scopes@ == old(self).scopes@
                && final(actions)@ == old(actions)@),
            old(self).spec_task(id).scopes matches TaskScopes::Root(rt) ==> (rt != scope ==> (
            final(self).spec_scope(scope).children.entries() == spec_list_remove(
                old(self).spec_scope(scope).children.entries(),
                rt,
            ) && final(self).spec_scope(scope) == (Scope {
                children: final(self).spec_scope(scope).children,
                ..old(self).spec_scope(scope)
            }) && (forall|s: int|
                0 <= s < old(self).scopes@.len() && s != scope && s != rt ==> #[trigger] final(self).scopes@[s] == old(self).scopes@[s]))),
    {
        let is_root = self.tasks[id].scopes.is_root();
        if is_root {
            let root = match self.tasks[id].scopes {
                TaskScopes::Root(r) => r,
                TaskScopes::Inner(_) => 0,
            };
            proof {
                assert(valid_task(
                    self.tasks@[id as int],
                    self.spec_num_tasks(),
                    self.spec_num_scopes(),
                ));
                assert(self.spec_task(id).scopes.spec_scopes()[0] == root);
            }
            if root != scope {
                let withdraw = {
                    let sc = &mut self.scopes[scope];
                    sc.remove_child(root)
                };
                proof {
                    let pre_sc = old(self).spec_scope(scope);
                    let post_sc = self.scopes@[scope as int];
                    assert(valid_scope(
                        pre_sc,
                        old(self).spec_num_tasks(),
                        old(self).spec_num_scopes(),
                    ));
                    assert forall|k: int|
                        0 <= k < post_sc.children.entries().len() implies (
                    #[trigger] post_sc.children.entries()[k]).0 < old(self).spec_num_scopes() by {
                        let pre_e = pre_sc.children.entries();
                        let post_e = post_sc.children.entries();
                        assert(post_e == spec_list_remove(pre_e, root));
                        if crate::scope::spec_has_scope(pre_e, root) {
                            let j = crate::scope::spec_scope_index(pre_e, root);
                            if pre_e[j].1 > 1 {
                                if k == j {
                                    assert(post_e[k].0 == root);
                                    assert(pre_e[j].0 == root);
                                } else {
                                    assert(post_e[k] == pre_e[k]);
                                }
                            } else {
                                if k < j {
                                    assert(post_e[k] == pre_e[k]);
                                } else {
                                    assert(post_e[k] == pre_e[k + 1]);
                                }
                            }
                        }
                    }
                    lemma_wf_after_scope_update(*old(self), *self, scope);
                }
                if withdraw {
                    self.decrease_scope_active(root, actions);
                }
            }
            return None;
        }
        let ghost list0 = old(self).spec_task(id).scopes->Inner_0;
        proof {
            crate::scope::lemma_count_at_index(list0.entries(), scope);
        }
        let result = {
            let t = &mut self.tasks[id];
            match &mut t.scopes {
                TaskScopes::Inner(list) => list.remove(scope),
                TaskScopes::Root(_) => RemoveResult::NoEntry,
            }
        };
        proof {
            assert forall|k: int|
                0 <= k < self.spec_task(id).scopes.spec_scopes().len() implies #[trigger] self.spec_task(
                id,
            ).scopes.spec_scopes()[k] < self.spec_num_scopes() by {
                let m0 = old(self).spec_task(id).scopes.spec_scopes();
                let m1 = self.spec_task(id).scopes.spec_scopes();
                assert(valid_task(
                    old(self).tasks@[id as int],
                    old(self).spec_num_tasks(),
                    old(self).spec_num_scopes(),
                ));
                let e0 = list0.entries();
                let e1 = self.spec_task(id).scopes->Inner_0.entries();
                assert(e1 == spec_list_remove(e0, scope));
                if crate::scope::spec_has_scope(e0, scope) {
                    let j = crate::scope::spec_scope_index(e0, scope);
                    if e0[j].1 > 1 {
                        if k == j {
                            assert(e1[k].0 == scope);
                            assert(e0[j].0 == scope);
                            assert(m0[j] == scope);
                        } else {
                            assert(e1[k] == e0[k]);
                            assert(m1[k] == m0[k]);
                        }
                    } else {
                        if k < j {
                            assert(e1[k] == e0[k]);
                            assert(m1[k] == m0[k]);
                        } else {
                            assert(e1[k] == e0[k + 1]);
                            assert(m1[k] == m0[k + 1]);
                        }
                    }
                } else {
                    assert(m1[k] == m0[k]);
                }
            }
            lemma_wf_after_task_update(*old(self), *self, id);
        }
        match result {
            RemoveResult::NoEntry | RemoveResult::Decreased => {
                proof {
                    let m1 = old(self).spec_task(id).scopes.spec_scopes();
                    let m2 = self.spec_task(id).scopes.spec_scopes();
                    assert(m2 =~= m1);
                    assert(crate::scope::spec_has_scope(list0.entries(), scope) == m1.contains(
                        scope,
                    )) by {
                        if crate::scope::spec_has_scope(list0.entries(), scope) {
                            let j = crate::scope::spec_scope_index(list0.entries(), scope);
                            assert(m1[j] == scope);
                        }
                        if m1.contains(scope) {
                            let k = choose|k: int| 0 <= k < m1.len() && m1[k] == scope;
                            assert(list0.entries()[k].0 == scope);
                        }
                    }
                    assert forall|t: ScopeId|
                        t < old(self).scopes@.len() && crate::backend::unfinished_count_exact(
                            *old(self),
                            t,
                        ) && old(self).scopes@[t as int].unfinished_tasks
                            < u32::MAX implies #[trigger] crate::backend::unfinished_count_exact(
                        *self,
                        t,
                    ) by {
                        assert(crate::backend::unfinished_members(*self, t)
                            =~= crate::backend::unfinished_members(*old(self), t));
                    }
                }
                None
            }
            RemoveResult::Removed => {
                let state = self.tasks[id].state_type;
                let is_done = match state {
                    TaskStateType::Done => true,
                    _ => false,
                };
                let ghost mid = *self;
                let reached_zero = {
                    let sc = &mut self.scopes[scope];
                    let z = if !is_done {
                        sc.decrement_unfinished_tasks()
                    } else {
                        false
                    };
                    // The last occurrence leaves: the task can no longer be
                    // woken through this scope.
                    sc.remove_dirty_task(id);
                    sc.decrement_tasks();
                    z
                };
                proof {
                    lemma_wf_after_scope_update(mid, *self, scope);
                }
                if reached_zero {
                    actions.push(Action::ScopeSettled(scope));
                }
                proof {
                    let b1 = *old(self);
                    let b2 = *self;
                    let e1 = list0.entries();
                    let j = crate::scope::spec_scope_index(e1, scope);
                    let m1 = b1.spec_task(id).scopes.spec_scopes();
                    let m2 = b2.spec_task(id).scopes.spec_scopes();
                    assert(0 <= j < e1.len() && e1[j].0 == scope);
                    assert(m1.contains(scope)) by {
                        assert(m1[j] == scope);
                    }
                    assert forall|t: ScopeId| m2.contains(t) implies m1.contains(t) && (t
                        != scope) by {
                        let k = choose|k: int| 0 <= k < m2.len() && m2[k] == t;
                        let k2: int = if k < j {
                            k
                        } else {
                            k + 1
                        };
                        assert(m1[k2] == t);
                        assert(k2 != j ==> e1[k2].0 != e1[j].0);
                    }
                    assert forall|t: ScopeId| m1.contains(t) && t != scope implies m2.contains(
                        t,
                    ) by {
                        let k = choose|k: int| 0 <= k < m1.len() && m1[k] == t;
                        if k < j {
                            assert(m2[k] == t);
                        } else {
                            assert(m2[k - 1] == t);
                        }
                    }
                    assert(!m2.contains(scope));
                    assert forall|t: ScopeId|
                        t < b1.scopes@.len() && crate::backend::unfinished_count_exact(b1, t)
                            && b1.scopes@[t as int].unfinished_tasks
                            < u32::MAX implies #[trigger] crate::backend::unfinished_count_exact(
                        b2,
                        t,
                    ) by {
                        if t != scope {
                            assert(b2.scopes@[t as int] == b1.scopes@[t as int]);
                            assert(m2.contains(t) == m1.contains(t));
                        } else {
                            assert(!m2.contains(scope));
                        }
                        crate::laws::lemma_membership_change_keeps_count_exact(b1, b2, id, t);
                    }
                }
                let children = self.tasks[id].children.to_vec();
                if children.len() != 0 {
                    Some((children, will_be_optimized))
                } else {
                    None
                }
            }
        }
    }

    /// Removes the task and, transitively, its children from the scope.
    pub fn remove_from_scope_internal(
        &mut self,
        id: TaskId,
        scope: ScopeId,
        will_be_optimized: bool,
        actions: &mut Vec<Action>,
    )
        requires
            old(self).wf(),
            id < old(self).spec_num_tasks(),
            scope < old(self).spec_num_scopes(),
        ensures
            final(self).wf(),
            final(self).tasks@.len() == old(self).tasks@.len(),
            final(self).scopes@.len() == old(self).scopes@.len(),
            memberships_not_grown(old(self).tasks@, final(self).tasks@),
            scopes_elsewhere_kept(old(self).scopes@, final(self).scopes@, scope as int),
            final(self).spec_scope(scope).active_count == old(self).spec_scope(
                scope,
            ).active_count,
            old(self).spec_task(id).scopes.spec_is_inner() ==> final(self).spec_task(
                id,
            ).scopes.spec_is_inner(),
            old(self).spec_task(id).scopes matches TaskScopes::Inner(list) ==> (list.count_of(
                scope,
            ) <= 1 ==> !final(self).spec_task(id).scopes.spec_scopes().contains(scope)),
            old(self).spec_task(id).scopes matches TaskScopes::Root(rt) ==> (rt == scope ==> final(self).tasks@ == old(self).tasks@ && final(self).scopes@ == old(self).scopes@
                && final(actions)@ == old(actions)@),
            old(self).spec_task(id).scopes matches TaskScopes::Root(rt) ==> (rt != scope ==> (
            final(self).spec_scope(scope).children.entries() == spec_list_remove(
                old(self).spec_scope(scope).children.entries(),
                rt,
            ) && (forall|s: int|
                0 <= s < old(self).scopes@.len() && s != scope && s != rt ==> #[trigger] final(self).scopes@[s] == old(self).scopes@[s]))),
            old(self).spec_task(id).children.elems().len() == 0 ==> (old(self).spec_task(
                id,
            ).scopes matches TaskScopes::Inner(list) ==> ((final(self).spec_task(id).scopes
                matches TaskScopes::Inner(l2) && l2.entries() == spec_list_remove(
                list.entries(),
                scope,
            )) && final(self).spec_task(id) == (Task {
                scopes: final(self).spec_task(id).scopes,
                ..old(self).spec_task(id)
            }) && (forall|i: int|
                0 <= i < old(self).tasks@.len() && i != id ==> #[trigger] final(self).tasks@[i]
                    == old(self).tasks@[i]) && (list.count_of(scope) != 1 ==> final(self).scopes@
                == old(self).scopes@) && (list.count_of(scope) == 1 ==> (final(self).spec_scope(
                scope,
            ).tasks == spec_dec(old(self).spec_scope(scope).tasks) && final(self).spec_scope(
                scope,
            ).unfinished_tasks == (if old(self).spec_task(id).state_type != TaskStateType::Done {
                spec_dec(old(self).spec_scope(scope).unfinished_tasks)
            } else {
                old(self).spec_scope(scope).unfinished_tasks
            }) && final(self).spec_scope(scope).dirty_tasks@ == old(self).spec_scope(
                scope,
            ).dirty_tasks@.remove(id) && final(self).spec_scope(scope) == (Scope {
                tasks: final(self).spec_scope(scope).tasks,
                unfinished_tasks: final(self).spec_scope(scope).unfinished_tasks,
                dirty_tasks: final(self).spec_scope(scope).dirty_tasks,
                ..old(self).spec_scope(scope)
            }) && (forall|s: int|
                0 <= s < old(self).scopes@.len() && s != scope ==> #[trigger] final(self).scopes@[s] == old(self).scopes@[s]))))),
    {
        let r = self.remove_from_scope_internal_shallow(id, scope, will_be_optimized, actions);
        let ghost mid = *self;
        match r {
            Some((children, wbo)) => {
                let queue_size = children.len();
                let mut queue: Vec<(Vec<TaskId>, bool)> = Vec::new();
                queue.push((children, wbo));
                proof {
                    assert(queue@.drop_last() =~= Seq::<(Vec<TaskId>, bool)>::empty());
                    assert(pending_count(Seq::<(Vec<TaskId>, bool)>::empty()) == 0);
                    assert(pending_count(queue@) == queue@.last().0@.len());
                    lemma_frame_entries_valid(*old(self), *self, id, queue@[0].0@);
                    assert forall|a: int, b: int|
                        0 <= a < queue@.len() && 0 <= b < queue@[a].0@.len() implies (
                    #[trigger] queue@[a].0@[b]) < self.spec_num_tasks() by {
                        assert(a == 0);
                    }
                }
                run_remove_from_scope_queue(queue, queue_size, scope, self, actions);
                proof {
                    lemma_memberships_not_grown_trans(old(self).tasks@, mid.tasks@, self.tasks@);
                    lemma_scopes_elsewhere_kept_trans(
                        old(self).scopes@,
                        mid.scopes@,
                        self.scopes@,
                        scope as int,
                    );
                    if old(self).spec_task(id).scopes.spec_is_inner() {
                        assert(task_gains_no_inner_memberships(
                            mid.tasks@[id as int],
                            self.tasks@[id as int],
                        ));
                    }
                }
            }
            None => {}
        }
    }

    /// Removes the task and its subgraph from one scope.
    pub fn remove_from_scope(&mut self, id: TaskId, scope: ScopeId, actions: &mut Vec<Action>)
        requires
            old(self).wf(),
            id < old(self).spec_num_tasks(),
            scope < old(self).spec_num_scopes(),
        ensures
            final(self).wf(),
            final(self).tasks@.len() == old(self).tasks@.len(),
            final(self).scopes@.len() == old(self).scopes@.len(),
            memberships_not_grown(old(self).tasks@, final(self).tasks@),
            scopes_elsewhere_kept(old(self).scopes@, final(self).scopes@, scope as int),
            final(self).spec_scope(scope).active_count == old(self).spec_scope(
                scope,
            ).active_count,
            old(self).spec_task(id).scopes.spec_is_inner() ==> final(self).spec_task(
                id,
            ).scopes.spec_is_inner(),
            old(self).spec_task(id).scopes matches TaskScopes::Inner(list) ==> (list.count_of(
                scope,
            ) <= 1 ==> !final(self).spec_task(id).scopes.spec_scopes().contains(scope)),
            old(self).spec_task(id).scopes matches TaskScopes::Root(rt) ==> (rt == scope ==> final(self).tasks@ == old(self).tasks@ && final(self).scopes@ == old(self).scopes@
                && final(actions)@ == old(actions)@),
            old(self).spec_task(id).scopes matches TaskScopes::Root(rt) ==> (rt != scope ==> (
            final(self).spec_scope(scope).children.entries() == spec_list_remove(
                old(self).spec_scope(scope).children.entries(),
                rt,
            ) && (forall|s: int|
                0 <= s < old(self).scopes@.len() && s != scope && s != rt ==> #[trigger] final(self).scopes@[s] == old(self).scopes@[s]))),
            old(self).spec_task(id).children.elems().len() == 0 ==> (old(self).spec_task(
                id,
            ).scopes matches TaskScopes::Inner(list) ==> ((final(self).spec_task(id).scopes
                matches TaskScopes::Inner(l2) && l2.entries() == spec_list_remove(
                list.entries(),
                scope,
            )) && final(self).spec_task(id) == (Task {
                scopes: final(self).spec_task(id).scopes,
                ..old(self).spec_task(id)
            }) && (forall|i: int|
                0 <= i < old(self).tasks@.len() && i != id ==> #[trigger] final(self).tasks@[i]
                    == old(self).tasks@[i]) && (list.count_of(scope) != 1 ==> final(self).scopes@
                == old(self).scopes@) && (list.count_of(scope) == 1 ==> (final(self).spec_scope(
                scope,
            ).tasks == spec_dec(old(self).spec_scope(scope).tasks) && final(self).spec_scope(
                scope,
            ).unfinished_tasks == (if old(self).spec_task(id).state_type != TaskStateType::Done {
                spec_dec(old(self).spec_scope(scope).unfinished_tasks)
            } else {
                old(self).spec_scope(scope).unfinished_tasks
            }) && final(self).spec_scope(scope).dirty_tasks@ == old(self).spec_scope(
                scope,
            ).dirty_tasks@.remove(id) && (forall|s: int|
                0 <= s < old(self).scopes@.len() && s != scope ==> #[trigger] final(self).scopes@[s] == old(self).scopes@[s]))))),
    {
        self.remove_from_scope_internal(id, scope, false, actions);
    }

    /// Removes the task and its subgraph from each of the given scopes.
    pub fn remove_from_scopes(
        &mut self,
        id: TaskId,
        scopes: &Vec<ScopeId>,
        will_be_optimized: bool,
        actions: &mut Vec<Action>,
    )
        requires
            old(self).wf(),
            id < old(self).spec_num_tasks(),
            forall|k: int| 0 <= k < scopes@.len() ==> #[trigger] scopes@[k] < old(self).spec_num_scopes(),
        ensures
            final(self).wf(),
            final(self).tasks@.len() == old(self).tasks@.len(),
            final(self).scopes@.len() == old(self).scopes@.len(),
            memberships_not_grown(old(self).tasks@, final(self).tasks@),
            old(self).spec_task(id).scopes.spec_is_inner() ==> final(self).spec_task(
                id,
            ).scopes.spec_is_inner(),
    {
        let ghost pre = *self;
        let mut i: usize = 0;
        while i < scopes.len()
            invariant
                i <= scopes@.len(),
                self.wf(),
                id < pre.tasks@.len(),
                self.tasks@.len() == pre.tasks@.len(),
                self.scopes@.len() == pre.scopes@.len(),
                memberships_not_grown(pre.tasks@, self.tasks@),
                forall|k: int|
                    0 <= k < scopes@.len() ==> #[trigger] scopes@[k] < pre.scopes@.len(),
            decreases scopes@.len() - i,
        {
            let ghost pre2 = *self;
            self.remove_from_scope_internal(id, scopes[i], will_be_optimized, actions);
            proof {
                lemma_memberships_not_grown_trans(pre.tasks@, pre2.tasks@, self.tasks@);
            }
            i += 1;
        }
        proof {
            if old(self).spec_task(id).scopes.spec_is_inner() {
                assert(task_gains_no_inner_memberships(
                    old(self).tasks@[id as int],
                    self.tasks@[id as int],
                ));
            }
        }
    }

    /// Connects `child` under `parent`: records the child edge and, when it
    /// is new, propagates each of the parent's scopes to the child.  A
    /// second call with the same pair finds the edge in place and changes
    /// nothing, so connecting twice has the same effect as connecting once.
    pub fn connect_child(&mut self, parent: TaskId, child: TaskId, actions: &mut Vec<Action>)
        requires
            old(self).wf(),
            parent < old(self).spec_num_tasks(),
            child < old(self).spec_num_tasks(),
        ensures
            final(self).wf(),
            final(self).tasks@.len() == old(self).tasks@.len(),
            final(self).scopes@.len() == old(self).scopes@.len(),
            old(self).spec_task(parent).children@.contains(child) ==> final(self).tasks@ == old(
                self,
            ).tasks@ && final(self).scopes@ == old(self).scopes@ && final(actions)@ == old(
                actions,
            )@,
            final(self).spec_task(parent).children@.contains(child),
            memberships_kept(old(self).tasks@, final(self).tasks@),
            !old(self).spec_task(parent).children@.contains(child) && old(self).spec_task(
                child,
            ).scopes.spec_is_inner() ==> (final(self).spec_task(child).scopes.spec_is_inner() && (
            forall|k: int|
                0 <= k < old(self).spec_task(parent).scopes.spec_scopes().len() ==> final(self).spec_task(child).scopes.spec_scopes().contains(
                    #[trigger] old(self).spec_task(parent).scopes.spec_scopes()[k],
                ))),
            !old(self).spec_task(parent).children@.contains(child) ==> (old(self).spec_task(
                child,
            ).scopes matches TaskScopes::Root(rc) ==> forall|k: int|
                0 <= k < old(self).spec_task(parent).scopes.spec_scopes().len() ==> ((
                #[trigger] old(self).spec_task(parent).scopes.spec_scopes()[k]) != rc ==> final(self).spec_scope(old(self).spec_task(parent).scopes.spec_scopes()[k]).children.has(rc))),
    {
        let newly = {
            let t = &mut self.tasks[parent];
            t.children.insert(child)
        };
        proof {
            lemma_wf_after_task_update(*old(self), *self, parent);
        }
        if !newly {
            proof {
                assert(self.tasks@ =~= old(self).tasks@);
            }
            return ;
        }
        let scopes_vec = self.tasks[parent].scopes.to_vec();
        proof {
            assert(valid_task(
                self.tasks@[parent as int],
                self.spec_num_tasks(),
                self.spec_num_scopes(),
            ));
        }
        let ghost mid = *self;
        proof {
            assert(mid.spec_task(child).scopes == old(self).spec_task(child).scopes);
            assert(scopes_vec@.no_duplicates()) by {
                self.spec_task(parent).scopes.lemma_scopes_distinct();
            }
        }
        let mut i: usize = 0;
        while i < scopes_vec.len()
            invariant
                i <= scopes_vec@.len(),
                self.wf(),
                child < mid.tasks@.len(),
                parent < mid.tasks@.len(),
                self.tasks@.len() == mid.tasks@.len(),
                self.scopes@.len() == mid.scopes@.len(),
                memberships_kept(mid.tasks@, self.tasks@),
                mid.spec_task(child).scopes.spec_is_inner() ==> (self.spec_task(
                    child,
                ).scopes.spec_is_inner() && (forall|k: int|
                    0 <= k < i ==> self.spec_task(child).scopes.spec_scopes().contains(
                        #[trigger] scopes_vec@[k],
                    ))),
                scopes_vec@.no_duplicates(),
                mid.spec_task(child).scopes.spec_is_root() ==> self.spec_task(child).scopes
                    == mid.spec_task(child).scopes,
                mid.spec_task(child).scopes.spec_is_root() ==> (forall|k: int|
                    0 <= k < i && scopes_vec@[k] != mid.spec_task(child).scopes->Root_0
                        ==> (#[trigger] self.spec_scope(scopes_vec@[k])).children.has(
                        mid.spec_task(child).scopes->Root_0,
                    )),
                forall|k: int|
                    0 <= k < scopes_vec@.len() ==> #[trigger] scopes_vec@[k]
                        < mid.scopes@.len(),
                self.spec_task(parent).children@.contains(child)
                    == mid.spec_task(parent).children@.contains(child),
            decreases scopes_vec@.len() - i,
        {
            let ghost pre2 = *self;
            self.add_to_scope_internal(child, scopes_vec[i], false, actions);
            proof {
                lemma_children_membership_stable(pre2, *self, parent, child);
                lemma_memberships_kept_trans(mid.tasks@, pre2.tasks@, self.tasks@);
                if mid.spec_task(child).scopes.spec_is_inner() {
                    assert(task_keeps_inner_memberships(
                        pre2.tasks@[child as int],
                        self.tasks@[child as int],
                    ));
                }
                if mid.spec_task(child).scopes.spec_is_root() {
                    let rc = mid.spec_task(child).scopes->Root_0;
                    assert(pre2.spec_task(child).scopes == mid.spec_task(child).scopes);
                    let sv = scopes_vec@[i as int];
                    if sv != rc {
                        assert(valid_scope(
                            pre2.scopes@[sv as int],
                            pre2.spec_num_tasks(),
                            pre2.spec_num_scopes(),
                        ));
                        if pre2.spec_scope(sv).children.count_of(rc) < u32::MAX {
                            crate::scope::lemma_add_count_effect(
                                pre2.spec_scope(sv).children.entries(),
                                rc,
                            );
                            assert(self.spec_scope(sv).children.has(rc));
                        } else {
                            crate::scope::lemma_count_at_index(
                                pre2.spec_scope(sv).children.entries(),
                                rc,
                            );
                            assert(pre2.spec_scope(sv).children.has(rc));
                            assert(self.spec_scope(sv).children.entries() == pre2.spec_scope(
                                sv,
                            ).children.entries());
                            assert(self.spec_scope(sv).children.has(rc));
                        }
                    }
                    assert forall|k: int|
                        0 <= k < i + 1 && scopes_vec@[k] != rc implies (#[trigger] self.spec_scope(
                        scopes_vec@[k],
                    )).children.has(rc) by {
                        if k < i as int {
                            assert(pre2.spec_scope(scopes_vec@[k]).children.has(rc));
                            assert(scopes_vec@[k] != scopes_vec@[i as int]);
                            assert(self.scopes@[scopes_vec@[k] as int] == pre2.scopes@[scopes_vec@[k] as int]);
                        } else {
                            assert(scopes_vec@[k] == sv);
                            assert(self.spec_scope(sv).children.has(rc));
                        }
                    }
                }
            }
            i += 1;
        }
        proof {
            lemma_memberships_kept_trans(old(self).tasks@, mid.tasks@, self.tasks@);
        }
    }

    /// Promotes an inner-scoped task to its own fresh root scope.  The new
    /// root becomes a child of every old scope with the old multiplicity,
    /// the task books itself into the root and out of the old scopes, and a
    /// background job moves the task's children over.  A task that already
    /// has a root scope is left untouched, so concurrent callers race
    /// harmlessly.
    pub fn make_root_scoped(&mut self, id: TaskId, actions: &mut Vec<Action>)
        requires
            old(self).wf(),
            id < old(self).spec_num_tasks(),
        ensures
            final(self).wf(),
            final(self).tasks@.len() == old(self).tasks@.len(),
            old(self).spec_task(id).scopes.spec_is_root() ==> final(self).tasks@ == old(
                self,
            ).tasks@ && final(self).scopes@ == old(self).scopes@ && final(actions)@ == old(
                actions,
            )@,
            !old(self).spec_task(id).scopes.spec_is_root() ==> final(self).spec_task(id).scopes
                == TaskScopes::Root(old(self).spec_num_scopes() as ScopeId) && final(self).spec_num_scopes() == old(self).spec_num_scopes() + 1,
            final(self).spec_task(id).scopes.spec_is_root(),
            !old(self).spec_task(id).scopes.spec_is_root() ==> (old(self).spec_task(id).scopes
                matches TaskScopes::Inner(list) ==> ((forall|k: int|
                0 <= k < list.entries().len() ==> (final(self).spec_scope(
                    (#[trigger] list.entries()[k]).0,
                ).children.count_of(old(self).spec_num_scopes() as ScopeId) == list.entries()[k].1
                    as int && final(self).spec_scope(list.entries()[k].0).tasks == spec_dec(
                    old(self).spec_scope(list.entries()[k].0).tasks,
                ) && final(self).spec_scope(list.entries()[k].0).unfinished_tasks == (if old(
                    self,
                ).spec_task(id).state_type != TaskStateType::Done {
                    spec_dec(old(self).spec_scope(list.entries()[k].0).unfinished_tasks)
                } else {
                    old(self).spec_scope(list.entries()[k].0).unfinished_tasks
                }) && !final(self).spec_scope(list.entries()[k].0).dirty_tasks@.contains(id)))
                && (list.entries().len() <= u32::MAX ==> final(self).spec_scope(
                old(self).spec_num_scopes() as ScopeId,
            ).active_count == count_active_entries(old(self).scopes@, list.entries())))),
            !old(self).spec_task(id).scopes.spec_is_root() && old(self).spec_task(
                id,
            ).children.elems().len() != 0 ==> (final(actions)@.last() matches Action::BackgroundJob(Job::RemoveFromScopes(c, s, f)) && c@ == old(self).spec_task(id).children.elems() && s@
                == old(self).spec_task(id).scopes.spec_scopes() && f == true),
            final(self).spec_task(id).output == old(self).spec_task(id).output,
            (final(self).spec_task(id).state_type == TaskStateType::Done) == (old(self).spec_task(
                id,
            ).state_type == TaskStateType::Done),
            !old(self).spec_task(id).scopes.spec_is_root() ==> final(self).spec_scope(
                old(self).spec_num_scopes() as ScopeId,
            ).tasks >= 1,
            !old(self).spec_task(id).scopes.spec_is_root() && old(self).spec_task(id).state_type
                != TaskStateType::Done ==> final(self).spec_scope(
                old(self).spec_num_scopes() as ScopeId,
            ).unfinished_tasks >= 1,
            !old(self).spec_task(id).scopes.spec_is_root() && old(self).spec_task(
                id,
            ).children.elems().len() == 0 ==> (final(self).spec_scope(
                old(self).spec_num_scopes() as ScopeId,
            ).tasks == 1 && final(self).spec_scope(
                old(self).spec_num_scopes() as ScopeId,
            ).unfinished_tasks == (if old(self).spec_task(id).state_type != TaskStateType::Done {
                1u32
            } else {
                0u32
            }) && final(self).spec_scope(
                old(self).spec_num_scopes() as ScopeId,
            ).children.entries().len() == 0),
            !old(self).spec_task(id).scopes.spec_is_root() ==> forall|k: int|
                0 <= k < old(self).spec_task(id).children.elems().len()
                    ==> #[trigger] add_child_settled(
                    *final(self),
                    old(self).spec_num_scopes() as ScopeId,
                    old(self).spec_task(id).children.elems()[k],
                ),
    {
        self.make_root_scoped_internal(id, actions);
    }

    /// The promotion itself; see `make_root_scoped`.
    pub fn make_root_scoped_internal(&mut self, id: TaskId, actions: &mut Vec<Action>)
        requires
            old(self).wf(),
            id < old(self).spec_num_tasks(),
        ensures
            final(self).wf(),
            final(self).tasks@.len() == old(self).tasks@.len(),
            old(self).spec_task(id).scopes.spec_is_root() ==> final(self).tasks@ == old(
                self,
            ).tasks@ && final(self).scopes@ == old(self).scopes@ && final(actions)@ == old(
                actions,
            )@,
            !old(self).spec_task(id).scopes.spec_is_root() ==> final(self).spec_task(id).scopes
                == TaskScopes::Root(old(self).spec_num_scopes() as ScopeId) && final(self).spec_num_scopes() == old(self).spec_num_scopes() + 1,
            final(self).spec_task(id).scopes.spec_is_root(),
            !old(self).spec_task(id).scopes.spec_is_root() ==> (old(self).spec_task(id).scopes
                matches TaskScopes::Inner(list) ==> ((forall|k: int|
                0 <= k < list.entries().len() ==> (final(self).spec_scope(
                    (#[trigger] list.entries()[k]).0,
                ).children.count_of(old(self).spec_num_scopes() as ScopeId) == list.entries()[k].1
                    as int && final(self).spec_scope(list.entries()[k].0).tasks == spec_dec(
                    old(self).spec_scope(list.entries()[k].0).tasks,
                ) && final(self).spec_scope(list.entries()[k].0).unfinished_tasks == (if old(
                    self,
                ).spec_task(id).state_type != TaskStateType::Done {
                    spec_dec(old(self).spec_scope(list.entries()[k].0).unfinished_tasks)
                } else {
                    old(self).spec_scope(list.entries()[k].0).unfinished_tasks
                }) && !final(self).spec_scope(list.entries()[k].0).dirty_tasks@.contains(id)))
                && (list.entries().len() <= u32::MAX ==> final(self).spec_scope(
                old(self).spec_num_scopes() as ScopeId,
            ).active_count == count_active_entries(old(self).scopes@, list.entries())))),
            !old(self).spec_task(id).scopes.spec_is_root() && old(self).spec_task(
                id,
            ).children.elems().len() != 0 ==> (final(actions)@.last() matches Action::BackgroundJob(Job::RemoveFromScopes(c, s, f)) && c@ == old(self).spec_task(id).children.elems() && s@
                == old(self).spec_task(id).scopes.spec_scopes() && f == true),
            final(self).spec_task(id).output == old(self).spec_task(id).output,
            (final(self).spec_task(id).state_type == TaskStateType::Done) == (old(self).spec_task(
                id,
            ).state_type == TaskStateType::Done),
            !old(self).spec_task(id).scopes.spec_is_root() ==> final(self).spec_scope(
                old(self).spec_num_scopes() as ScopeId,
            ).tasks >= 1,
            !old(self).spec_task(id).scopes.spec_is_root() && old(self).spec_task(id).state_type
                != TaskStateType::Done ==> final(self).spec_scope(
                old(self).spec_num_scopes() as ScopeId,
            ).unfinished_tasks >= 1,
            !old(self).spec_task(id).scopes.spec_is_root() && old(self).spec_task(
                id,
            ).children.elems().len() == 0 ==> (final(self).spec_scope(
                old(self).spec_num_scopes() as ScopeId,
            ).tasks == 1 && final(self).spec_scope(
                old(self).spec_num_scopes() as ScopeId,
            ).unfinished_tasks == (if old(self).spec_task(id).state_type != TaskStateType::Done {
                1u32
            } else {
                0u32
            }) && final(self).spec_scope(
                old(self).spec_num_scopes() as ScopeId,
            ).children.entries().len() == 0),
            !old(self).spec_task(id).scopes.spec_is_root() ==> forall|k: int|
                0 <= k < old(self).spec_task(id).children.elems().len()
                    ==> #[trigger] add_child_settled(
                    *final(self),
                    old(self).spec_num_scopes() as ScopeId,
                    old(self).spec_task(id).children.elems()[k],
                ),
    {
        let is_root = self.tasks[id].scopes.is_root();
        if is_root {
            return ;
        }
        let entries = match &self.tasks[id].scopes {
            TaskScopes::Inner(list) => list.into_scopes(),
            TaskScopes::Root(_) => Vec::new(),
        };
        proof {
            assert(valid_task(
                self.tasks@[id as int],
                self.spec_num_tasks(),
                self.spec_num_scopes(),
            ));
            let m = old(self).spec_task(id).scopes.spec_scopes();
            assert forall|k: int| 0 <= k < entries@.len() implies (#[trigger] entries@[k]).0
                < old(self).spec_num_scopes() by {
                assert(m[k] == entries@[k].0);
            }
        }
        let root_scope = self.create_new_scope();
        let ghost mid0 = *self;
        // Replace the inner membership by the fresh root scope.
        {
            let t = &mut self.tasks[id];
            t.scopes = TaskScopes::Root(root_scope);
        }
        proof {
            assert(self.spec_task(id).scopes.spec_scopes() =~= seq![root_scope]);
            lemma_wf_after_task_update(mid0, *self, id);
        }
        // Make the new root a child of every old scope, with the old
        // multiplicity, and count how many observed their scope as active.
        let ghost mid1 = *self;
        proof {
            assert forall|k: int| 0 <= k < entries@.len() implies !crate::scope::spec_has_scope(
                mid1.scopes@[(#[trigger] entries@[k]).0 as int].children.entries(),
                root_scope,
            ) by {
                let sid = entries@[k].0;
                assert(self.scopes@[sid as int] == old(self).scopes@[sid as int]);
                assert(valid_scope(
                    old(self).scopes@[sid as int],
                    old(self).spec_num_tasks(),
                    old(self).spec_num_scopes(),
                ));
                let ch = mid1.scopes@[sid as int].children.entries();
                if crate::scope::spec_has_scope(ch, root_scope) {
                    let j = crate::scope::spec_scope_index(ch, root_scope);
                    assert(ch[j].0 == root_scope);
                }
            }
            let m = old(self).spec_task(id).scopes.spec_scopes();
            old(self).spec_task(id).scopes.lemma_scopes_distinct();
            assert forall|p: int, q: int|
                0 <= p < q < entries@.len() implies (#[trigger] entries@[p]).0 != (
            #[trigger] entries@[q]).0 by {
                assert(m[p] == entries@[p].0);
                assert(m[q] == entries@[q].0);
            }
        }
        proof {
            assert forall|k: int| 0 <= k < entries@.len() implies (#[trigger] entries@[k]).0
                < root_scope by {
                let m = old(self).spec_task(id).scopes.spec_scopes();
                assert(m[k] == entries@[k].0);
            }
            assert(count_active_entries(mid1.scopes@, entries@.take(0int)) == 0) by {
                assert(entries@.take(0int) =~= Seq::<(ScopeId, u32)>::empty());
            }
        }
        let mut active_counter: u32 = 0;
        let mut i: usize = 0;
        while i < entries.len()
            invariant
                i <= entries@.len(),
                self.wf(),
                id < mid1.tasks@.len(),
                root_scope < mid1.scopes@.len(),
                self.tasks@ == mid1.tasks@,
                self.scopes@.len() == mid1.scopes@.len(),
                forall|k: int|
                    0 <= k < entries@.len() ==> (#[trigger] entries@[k]).0 < root_scope
                        && entries@[k].1 >= 1,
                forall|p: int, q: int|
                    0 <= p < q < entries@.len() ==> (#[trigger] entries@[p]).0 != (
                    #[trigger] entries@[q]).0,
                forall|k: int|
                    i <= k < entries@.len() ==> !crate::scope::spec_has_scope(
                        self.scopes@[(#[trigger] entries@[k]).0 as int].children.entries(),
                        root_scope,
                    ),
                forall|k: int|
                    i <= k < entries@.len() ==> #[trigger] self.scopes@[entries@[k].0 as int]
                        == mid1.scopes@[entries@[k].0 as int],
                forall|k: int|
                    0 <= k < i ==> (#[trigger] self.scopes@[entries@[k].0 as int]).children.count_of(root_scope) == entries@[k].1 as int,
                forall|k: int|
                    0 <= k < i ==> #[trigger] self.scopes@[entries@[k].0 as int] == (Scope {
                        children: self.scopes@[entries@[k].0 as int].children,
                        ..mid1.scopes@[entries@[k].0 as int]
                    }),
                self.scopes@[root_scope as int] == mid1.scopes@[root_scope as int],
                entries@.len() <= u32::MAX ==> active_counter as int == count_active_entries(
                    mid1.scopes@,
                    entries@.take(i as int),
                ),
                active_counter as int <= i,
            decreases entries@.len() - i,
        {
            let (s, c) = entries[i];
            let ghost pre = *self;
            let observed_active = {
                let sc = &mut self.scopes[s];
                proof {
                    crate::scope::lemma_count_at_index(sc.children.entries(), root_scope);
                    assert(sc.children.count_of(root_scope) == 0);
                }
                sc.add_child_count(root_scope, c)
            };
            proof {
                assert forall|k: int|
                    i + 1 <= k < entries@.len() implies !crate::scope::spec_has_scope(
                    self.scopes@[(#[trigger] entries@[k]).0 as int].children.entries(),
                    root_scope,
                ) && self.scopes@[entries@[k].0 as int] == mid1.scopes@[entries@[k].0 as int] by {
                    assert(entries@[k].0 != s);
                    assert(self.scopes@[entries@[k].0 as int] == pre.scopes@[entries@[k].0 as int]);
                }
                assert forall|k: int|
                    0 <= k < i + 1 implies (#[trigger] self.scopes@[entries@[k].0 as int]).children.count_of(root_scope) == entries@[k].1 as int && self.scopes@[entries@[k].0 as int]
                    == (Scope {
                    children: self.scopes@[entries@[k].0 as int].children,
                    ..mid1.scopes@[entries@[k].0 as int]
                }) by {
                    if k < i {
                        assert(entries@[k].0 != s);
                        assert(self.scopes@[entries@[k].0 as int] == pre.scopes@[entries@[k].0 as int]);
                    }
                }
                assert(entries@.take(i + 1 as int) =~= entries@.take(i as int).push(
                    entries@[i as int],
                ));
                assert(entries@.take(i as int).push(entries@[i as int]).drop_last()
                    =~= entries@.take(i as int));
                assert(observed_active == (mid1.scopes@[s as int].active_count > 0));
            }
            proof {
                let pre_sc = pre.scopes@[s as int];
                let post_sc = self.scopes@[s as int];
                assert(valid_scope(pre_sc, pre.spec_num_tasks(), pre.spec_num_scopes()));
                assert forall|k: int|
                    0 <= k < post_sc.children.entries().len() implies (
                #[trigger] post_sc.children.entries()[k]).0 < pre.spec_num_scopes() by {
                    if post_sc.children.entries()[k].0 != root_scope {
                        assert(crate::scope::spec_has_scope(
                            pre_sc.children.entries(),
                            post_sc.children.entries()[k].0,
                        ));
                        let j = crate::scope::spec_scope_index(
                            pre_sc.children.entries(),
                            post_sc.children.entries()[k].0,
                        );
                        assert(pre_sc.children.entries()[j].0 == post_sc.children.entries()[k].0);
                    }
                }
                lemma_wf_after_scope_update(pre, *self, s);
            }
            if observed_active {
                active_counter = active_counter.saturating_add(1);
            }
            i += 1;
        }
        // The old scopes see the new root as active that many times over.
        let ghost afterl1 = *self;
        if active_counter > 0 {
            self.increase_scope_active_by(root_scope, active_counter, actions);
        }
        proof {
            assert(afterl1.scopes@[root_scope as int].dirty_tasks@ == Set::<TaskId>::empty());
            assert(self.spec_scope(root_scope).active_count == active_counter);
            assert(self.tasks@ =~= afterl1.tasks@) by {
                assert forall|t: int| 0 <= t < afterl1.tasks@.len() implies self.tasks@[t]
                    == afterl1.tasks@[t] by {
                    if active_counter > 0 {
                        assert(!afterl1.spec_scope(root_scope).dirty_tasks@.contains(
                            t as TaskId,
                        ));
                    }
                }
            }
            assert forall|k: int|
                0 <= k < entries@.len() implies #[trigger] self.scopes@[entries@[k].0 as int]
                == afterl1.scopes@[entries@[k].0 as int] by {
                assert(entries@[k].0 != root_scope);
            }
        }
        // Book the task itself into its new root scope.
        let schedule_self = self.add_self_to_new_scope(id, root_scope);
        // And out of every old scope.
        let state = self.tasks[id].state_type;
        let is_done = match state {
            TaskStateType::Done => true,
            _ => false,
        };
        proof {
            assert(is_done == (old(self).spec_task(id).state_type == TaskStateType::Done));
            assert forall|k: int|
                0 <= k < entries@.len() implies #[trigger] self.scopes@[entries@[k].0 as int]
                == afterl1.scopes@[entries@[k].0 as int] by {
                assert(entries@[k].0 != root_scope);
            }
            assert(self.spec_scope(root_scope).active_count == active_counter);
            assert(afterl1.scopes@[root_scope as int].tasks == 0);
            assert(afterl1.scopes@[root_scope as int].unfinished_tasks == 0);
            assert(afterl1.scopes@[root_scope as int].children.entries().len() == 0);
            assert(self.spec_scope(root_scope).tasks == 1);
            assert(self.spec_scope(root_scope).unfinished_tasks == (if !is_done {
                1u32
            } else {
                0u32
            }));
            assert(self.spec_scope(root_scope).children.entries().len() == 0);
        }
        let ghost mid2 = *self;
        let mut j: usize = 0;
        while j < entries.len()
            invariant
                j <= entries@.len(),
                self.wf(),
                id < mid2.tasks@.len(),
                root_scope < mid2.scopes@.len(),
                self.tasks@ == mid2.tasks@,
                self.scopes@.len() == mid2.scopes@.len(),
                is_done == (old(self).spec_task(id).state_type == TaskStateType::Done),
                forall|k: int|
                    0 <= k < entries@.len() ==> (#[trigger] entries@[k]).0 < root_scope,
                root_scope < mid2.scopes@.len(),
                forall|p: int, q: int|
                    0 <= p < q < entries@.len() ==> (#[trigger] entries@[p]).0 != (
                    #[trigger] entries@[q]).0,
                forall|k: int|
                    j <= k < entries@.len() ==> #[trigger] self.scopes@[entries@[k].0 as int]
                        == mid2.scopes@[entries@[k].0 as int],
                forall|k: int|
                    0 <= k < j ==> ((#[trigger] self.scopes@[entries@[k].0 as int]).tasks
                        == spec_dec(mid2.scopes@[entries@[k].0 as int].tasks)
                        && self.scopes@[entries@[k].0 as int].unfinished_tasks == (if old(
                        self,
                    ).spec_task(id).state_type != TaskStateType::Done {
                        spec_dec(mid2.scopes@[entries@[k].0 as int].unfinished_tasks)
                    } else {
                        mid2.scopes@[entries@[k].0 as int].unfinished_tasks
                    }) && self.scopes@[entries@[k].0 as int].dirty_tasks@ == mid2.scopes@[entries@[k].0 as int].dirty_tasks@.remove(id) && self.scopes@[entries@[k].0 as int].children
                        == mid2.scopes@[entries@[k].0 as int].children && self.scopes@[entries@[k].0 as int].active_count == mid2.scopes@[entries@[k].0 as int].active_count),
                self.scopes@[root_scope as int] == mid2.scopes@[root_scope as int],
            decreases entries@.len() - j,
        {
            let (s, _) = entries[j];
            let ghost pre = *self;
            let reached_zero = {
                let sc = &mut self.scopes[s];
                let z = if !is_done {
                    sc.decrement_unfinished_tasks()
                } else {
                    false
                };
                // The task leaves the old scope entirely: it can no longer
                // be woken through it.
                sc.remove_dirty_task(id);
                sc.decrement_tasks();
                z
            };
            proof {
                lemma_wf_after_scope_update(pre, *self, s);
                assert forall|k: int|
                    0 <= k < entries@.len() && k != j implies #[trigger] self.scopes@[entries@[k].0 as int] == pre.scopes@[entries@[k].0 as int] by {
                    assert(entries@[k].0 != s);
                }
            }
            if reached_zero {
                actions.push(Action::ScopeSettled(s));
            }
            j += 1;
        }
        // Move the children over to the new root, and let a background job
        // take them out of the old scopes.
        let children = self.tasks[id].children.to_vec();
        proof {
            assert(children@ == old(self).spec_task(id).children.elems());
        }
        let ghost before_move = *self;
        if children.len() != 0 || schedule_self {
            proof {
                lemma_frame_entries_valid(*self, *self, id, children@);
            }
            let ghost mid3 = *self;
            let mut k: usize = 0;
            while k < children.len()
                invariant
                    k <= children@.len(),
                    self.wf(),
                    id < mid3.tasks@.len(),
                    root_scope < mid3.scopes@.len(),
                    self.tasks@.len() == mid3.tasks@.len(),
                    self.scopes@.len() == mid3.scopes@.len(),
                    mid3.spec_task(id).scopes.spec_is_root(),
                    self.spec_task(id).scopes == mid3.spec_task(id).scopes,
                    scopes_elsewhere_kept(mid3.scopes@, self.scopes@, root_scope as int),
                    self.scopes@[root_scope as int].active_count == mid3.scopes@[root_scope as int].active_count,
                    self.scopes@[root_scope as int].tasks >= mid3.scopes@[root_scope as int].tasks,
                    self.scopes@[root_scope as int].unfinished_tasks >= mid3.scopes@[root_scope as int].unfinished_tasks,
                    children@.len() == 0 ==> self.scopes@[root_scope as int]
                        == mid3.scopes@[root_scope as int],
                    outputs_and_doneness_kept(mid3.tasks@, self.tasks@),
                    forall|b: int|
                        0 <= b < k ==> #[trigger] add_child_settled(
                            *self,
                            root_scope,
                            children@[b],
                        ),
                    forall|t: int|
                        0 <= t < children@.len() ==> (#[trigger] children@[t])
                            < mid3.tasks@.len(),
                decreases children@.len() - k,
            {
                let ghost pre3 = *self;
                self.add_to_scope_internal(children[k], root_scope, true, actions);
                proof {
                    assert(edges_preserved(pre3.tasks@, self.tasks@));
                    lemma_scopes_elsewhere_kept_trans(
                        mid3.scopes@,
                        pre3.scopes@,
                        self.scopes@,
                        root_scope as int,
                    );
                    lemma_outputs_doneness_kept_trans(mid3.tasks@, pre3.tasks@, self.tasks@);
                    assert forall|b: int|
                        0 <= b < k + 1 implies #[trigger] add_child_settled(
                        *self,
                        root_scope,
                        children@[b],
                    ) by {
                        let c = children@[b];
                        if b < k as int {
                            assert(add_child_settled(pre3, root_scope, c));
                            assert(task_keeps_inner_memberships(
                                pre3.tasks@[c as int],
                                self.tasks@[c as int],
                            ));
                            if !pre3.tasks@[c as int].scopes.spec_is_inner() {
                                assert(pre3.tasks@[c as int].scopes.spec_is_root());
                                assert(self.tasks@[c as int].scopes == pre3.tasks@[c as int].scopes);
                            } else {
                                assert(pre3.tasks@[c as int].scopes.spec_scopes().contains(
                                    root_scope,
                                ));
                                assert(self.tasks@[c as int].scopes.spec_scopes().contains(
                                    root_scope,
                                ));
                            }
                        } else {
                            assert(c == children@[k as int]);
                            if !pre3.tasks@[c as int].scopes.spec_is_inner() {
                                assert(pre3.tasks@[c as int].scopes.spec_is_root());
                                assert(self.tasks@[c as int].scopes == pre3.tasks@[c as int].scopes);
                            } else {
                                assert(self.tasks@[c as int].scopes.spec_scopes().contains(
                                    root_scope,
                                ));
                            }
                        }
                    }
                }
                k += 1;
            }
            if schedule_self {
                actions.push(Action::Schedule(id));
            }
            let mut old_scopes: Vec<ScopeId> = Vec::new();
            let mut m: usize = 0;
            while m < entries.len()
                invariant
                    m <= entries@.len(),
                    old_scopes@ == entries@.take(m as int).map_values(
                        |p: (ScopeId, u32)| p.0,
                    ),
                decreases entries@.len() - m,
            {
                old_scopes.push(entries[m].0);
                proof {
                    assert(old_scopes@ =~= entries@.take(m + 1 as int).map_values(
                        |p: (ScopeId, u32)| p.0,
                    ));
                }
                m += 1;
            }
            proof {
                assert(entries@.take(entries@.len() as int) =~= entries@);
                assert(old_scopes@ =~= old(self).spec_task(id).scopes.spec_scopes());
            }
            actions.push(
                Action::BackgroundJob(Job::RemoveFromScopes(children, old_scopes, true)),
            );
        }
        proof {
            assert(self.spec_task(id).scopes == TaskScopes::Root(root_scope));
            let e = entries@;
            assert(entries@.take(entries@.len() as int) =~= entries@);
            assert forall|k: int| 0 <= k < e.len() implies (self.spec_scope(
                (#[trigger] e[k]).0,
            ).children.count_of(root_scope) == e[k].1 as int && self.spec_scope(e[k].0).tasks
                == spec_dec(old(self).spec_scope(e[k].0).tasks) && self.spec_scope(
                e[k].0,
            ).unfinished_tasks == (if old(self).spec_task(id).state_type != TaskStateType::Done {
                spec_dec(old(self).spec_scope(e[k].0).unfinished_tasks)
            } else {
                old(self).spec_scope(e[k].0).unfinished_tasks
            }) && !self.spec_scope(e[k].0).dirty_tasks@.contains(id)) by {
                let s = e[k].0 as int;
                assert(mid1.scopes@[s] == old(self).scopes@[s]);
                assert(afterl1.scopes@[s].children.count_of(root_scope) == e[k].1 as int);
                assert(afterl1.scopes@[s] == (Scope {
                    children: afterl1.scopes@[s].children,
                    ..old(self).scopes@[s]
                }));
                assert(mid2.scopes@[s] == afterl1.scopes@[s]);
                assert(before_move.scopes@[s].dirty_tasks@ == mid2.scopes@[s].dirty_tasks@.remove(
                    id,
                ));
                assert(self.scopes@[s].children == before_move.scopes@[s].children);
                assert(self.scopes@[s].dirty_tasks@.subset_of(before_move.scopes@[s].dirty_tasks@));
            }
            if entries@.len() <= u32::MAX {
                lemma_count_active_entries_agree(mid1.scopes@, old(self).scopes@, e);
                assert(self.spec_scope(root_scope).active_count == active_counter);
            }
            assert(mid2.tasks@[id as int].output == old(self).tasks@[id as int].output);
            assert((mid2.tasks@[id as int].state_type == TaskStateType::Done) == (old(
                self,
            ).tasks@[id as int].state_type == TaskStateType::Done));
            assert(before_move.tasks@ == mid2.tasks@);
            assert(self.spec_task(id).output == old(self).spec_task(id).output);
            assert((self.spec_task(id).state_type == TaskStateType::Done) == (old(
                self,
            ).spec_task(id).state_type == TaskStateType::Done));
            assert(self.spec_scope(root_scope).tasks >= 1);
            if !is_done {
                assert(self.spec_scope(root_scope).unfinished_tasks >= 1);
            }
            if children@.len() == 0 {
                assert(self.spec_scope(root_scope).tasks == 1);
                assert(self.spec_scope(root_scope).children.entries().len() == 0);
            }
            assert forall|k: int|
                0 <= k < old(self).spec_task(id).children.elems().len()
                    implies #[trigger] add_child_settled(
                *self,
                root_scope,
                old(self).spec_task(id).children.elems()[k],
            ) by {
                assert(children@[k] == old(self).spec_task(id).children.elems()[k]);
            }
        }
    }
}

/// The elements of a task's children set point into the task table.
pub proof fn lemma_frame_entries_valid(
    pre: MemoryBackend,
    post: MemoryBackend,
    id: TaskId,
    entries: Seq<TaskId>,
)
    requires
        pre.wf(),
        id < pre.spec_num_tasks(),
        post.tasks@.len() == pre.tasks@.len(),
        entries == pre.spec_task(id).children.elems(),
    ensures
        forall|j: int| 0 <= j < entries.len() ==> (#[trigger] entries[j]) < post.tasks@.len(),
{
    pre.spec_task(id).children.lemma_view_is_elems_set();
    assert(valid_task(pre.tasks@[id as int], pre.spec_num_tasks(), pre.spec_num_scopes()));
    assert forall|j: int| 0 <= j < entries.len() implies (#[trigger] entries[j])
        < post.tasks@.len() by {
        assert(pre.spec_task(id).children.elems().contains(entries[j]));
        assert(pre.spec_task(id).children@.contains(entries[j]));
    }
}

/// Whatever a scope update does to other tasks, it never takes an existing
/// child edge away.
pub proof fn lemma_children_membership_stable(
    pre: MemoryBackend,
    post: MemoryBackend,
    parent: TaskId,
    child: TaskId,
)
    requires
        parent < pre.spec_num_tasks(),
        post.tasks@.len() == pre.tasks@.len(),
        forall|i: int|
            0 <= i < pre.tasks@.len() ==> (#[trigger] post.tasks@[i]).children == pre.tasks@[i].children,
    ensures
        post.spec_task(parent).children@.contains(child) == pre.spec_task(
            parent,
        ).children@.contains(child),
{
}

/// Pops frames off the far end of the queue until roughly half of the
/// pending children are moved, and returns them with their pending count.
/// The pending work is conserved: nothing is dropped or duplicated.
pub fn split_scope_update_queue(
    queue: &mut Vec<(Vec<TaskId>, bool)>,
    queue_size: &mut usize,
) -> (moved: (Vec<(Vec<TaskId>, bool)>, usize))
    requires
        old(queue)@.len() > 2,
        *old(queue_size) == pending_count(old(queue)@),
    ensures
        *final(queue_size) == pending_count(final(queue)@),
        moved.1 == pending_count(moved.0@),
        *final(queue_size) + moved.1 == *old(queue_size),
        final(queue)@.len() >= 2,
        *final(queue_size) <= *old(queue_size) / 2 || final(queue)@.len() == 2,
        final(queue)@.len() <= old(queue)@.len(),
        forall|i: int|
            0 <= i < final(queue)@.len() ==> #[trigger] final(queue)@[i] == old(queue)@[i],
        moved.0@.len() == old(queue)@.len() - final(queue)@.len(),
        forall|i: int|
            0 <= i < moved.0@.len() ==> #[trigger] moved.0@[i] == old(queue)@[old(queue)@.len() - 1
                - i],
{
    let goal: usize = *queue_size / 2;
    let mut split_off: Vec<(Vec<TaskId>, bool)> = Vec::new();
    let mut moved_size: usize = 0;
    while queue.len() > 2 && *queue_size > goal
        invariant
            queue@.len() >= 2,
            *queue_size == pending_count(queue@),
            moved_size == pending_count(split_off@),
            *queue_size + moved_size == *old(queue_size),
            goal == *old(queue_size) / 2,
            queue@.len() <= old(queue)@.len(),
            forall|i: int| 0 <= i < queue@.len() ==> #[trigger] queue@[i] == old(queue)@[i],
            split_off@.len() == old(queue)@.len() - queue@.len(),
            forall|i: int|
                0 <= i < split_off@.len() ==> #[trigger] split_off@[i] == old(queue)@[old(
                    queue,
                )@.len() - 1 - i],
        decreases queue@.len(),
    {
        proof {
            lemma_pending_count_bounds(queue@);
        }
        let ghost q0 = queue@;
        let ghost s0 = split_off@;
        let item = match queue.pop() {
            Some(item) => item,
            None => {
                return (split_off, moved_size);
            }
        };
        *queue_size = *queue_size - item.0.len();
        moved_size = moved_size + item.0.len();
        let ghost itemlen = item.0@.len();
        split_off.push(item);
        proof {
            assert(split_off@.drop_last() =~= s0);
        }
    }
    (split_off, moved_size)
}

/// Processes a queue of child frames, adding each child (and transitively
/// its children) to the scope.  When the queue grows past the split
/// thresholds, roughly half of the pending children are handed back to the
/// runtime as a foreground job; a call that exhausts its step budget
/// requeues the remainder the same way.
#[verifier::rlimit(80)]
pub fn run_add_to_scope_queue(
    queue: Vec<(Vec<TaskId>, bool)>,
    queue_size: usize,
    id: ScopeId,
    backend: &mut MemoryBackend,
    actions: &mut Vec<Action>,
)
    requires
        old(backend).wf(),
        id < old(backend).spec_num_scopes(),
        frames_valid(queue@, old(backend).spec_num_tasks()),
        queue_size == pending_count(queue@),
    ensures
        final(backend).wf(),
        final(backend).tasks@.len() == old(backend).tasks@.len(),
        final(backend).scopes@.len() == old(backend).scopes@.len(),
        edges_preserved(old(backend).tasks@, final(backend).tasks@),
        memberships_kept(old(backend).tasks@, final(backend).tasks@),
        scopes_elsewhere_kept(old(backend).scopes@, final(backend).scopes@, id as int),
        final(backend).spec_scope(id).active_count == old(backend).spec_scope(id).active_count,
        outputs_and_doneness_kept(old(backend).tasks@, final(backend).tasks@),
        final(backend).spec_scope(id).tasks >= old(backend).spec_scope(id).tasks,
        final(backend).spec_scope(id).unfinished_tasks >= old(backend).spec_scope(
            id,
        ).unfinished_tasks,
        add_queue_discharged(queue@, *final(backend), id, old(actions)@, final(actions)@),
        queue@.len() != 0 ==> forall|b: int|
            0 <= b < queue@.last().0@.len() ==> #[trigger] add_child_settled(
                *final(backend),
                id,
                queue@.last().0@[b],
            ),
{
    let ghost q_in = queue@;
    proof {
        assert forall|a: int, b: int|
            0 <= a < q_in.len() && 0 <= b < q_in[a].0@.len() implies frames_carry(
            q_in,
            #[trigger] q_in[a].0@[b],
        ) by {
            let c = q_in[a].0@[b];
            assert(0 <= a < q_in.len() && 0 <= b < q_in[a].0@.len() && q_in[a].0@[b] == c);
        }
    }
    let mut work = queue;
    let mut queue_size = queue_size;
    let mut budget: usize = TRAVERSAL_STEP_BUDGET;
    while work.len() != 0
        invariant
            backend.wf(),
            id < old(backend).spec_num_scopes(),
            backend.tasks@.len() == old(backend).tasks@.len(),
            backend.scopes@.len() == old(backend).scopes@.len(),
            edges_preserved(old(backend).tasks@, backend.tasks@),
            memberships_kept(old(backend).tasks@, backend.tasks@),
            scopes_elsewhere_kept(old(backend).scopes@, backend.scopes@, id as int),
            backend.spec_scope(id).active_count == old(backend).spec_scope(id).active_count,
            outputs_and_doneness_kept(old(backend).tasks@, backend.tasks@),
            backend.spec_scope(id).tasks >= old(backend).spec_scope(id).tasks,
            backend.spec_scope(id).unfinished_tasks >= old(backend).spec_scope(
                id,
            ).unfinished_tasks,
            frames_valid(work@, backend.spec_num_tasks()),
            queue_size == pending_count(work@),
            q_in == queue@,
            frames_valid(q_in, old(backend).spec_num_tasks()),
            crate::backend::actions_extended(old(actions)@, actions@),
            forall|a: int, b: int|
                0 <= a < q_in.len() && 0 <= b < q_in[a].0@.len() ==> (add_child_settled(
                    *backend,
                    id,
                    #[trigger] q_in[a].0@[b],
                ) || frames_carry(work@, q_in[a].0@[b]) || requeued_add(
                    old(actions)@,
                    actions@,
                    q_in[a].0@[b],
                )),
            budget <= TRAVERSAL_STEP_BUDGET,
            budget == TRAVERSAL_STEP_BUDGET ==> work@ == q_in,
            q_in.len() != 0 && budget < TRAVERSAL_STEP_BUDGET ==> forall|b: int|
                0 <= b < q_in.last().0@.len() ==> #[trigger] add_child_settled(
                    *backend,
                    id,
                    q_in.last().0@[b],
                ),
        decreases budget,
    {
        let ghost prior = budget;
        if budget == 0 {
            let ghost qcur = work@;
            let ghost acts_before = actions@;
            actions.push(Action::ForegroundJob(Job::AddToScopeQueue(work, queue_size, id)));
            proof {
                assert(add_queue_discharged(q_in, *backend, id, old(actions)@, actions@)) by {
                    assert forall|a: int, b: int|
                        0 <= a < q_in.len() && 0 <= b < q_in[a].0@.len() implies (
                    add_child_settled(*backend, id, #[trigger] q_in[a].0@[b]) || requeued_add(
                        old(actions)@,
                        actions@,
                        q_in[a].0@[b],
                    )) by {
                        let c = q_in[a].0@[b];
                        if frames_carry(qcur, c) {
                            assert(action_carries_add_child(
                                actions@[acts_before.len() as int],
                                c,
                            ));
                            assert(requeued_add(old(actions)@, actions@, c));
                        } else if requeued_add(old(actions)@, acts_before, c) {
                            lemma_requeued_extend(old(actions)@, acts_before, actions@, c);
                        }
                    }
                }
            }
            return ;
        }
        budget = budget - 1;
        proof {
            lemma_pending_count_bounds(work@);
        }
        let ghost q0 = work@;
        let (children, wbo) = match work.pop() {
            Some(frame) => frame,
            None => {
                return ;
            }
        };
        queue_size = queue_size - children.len();
        proof {
            assert(children@ == q0.last().0@);
            assert forall|c: TaskId| frames_carry(q0, c) implies (frames_carry(work@, c) || (
            exists|b2: int| 0 <= b2 < children@.len() && (#[trigger] children@[b2]) == c)) by {
                let (a2, b2) = choose|a2: int, b2: int|
                    0 <= a2 < q0.len() && 0 <= b2 < q0[a2].0@.len() && (#[trigger] q0[a2].0@[b2])
                        == c;
                if a2 < q0.len() - 1 {
                    assert(work@[a2].0@[b2] == c);
                } else {
                    assert(children@[b2] == c);
                }
            }
        }
        let mut ci: usize = 0;
        while ci < children.len()
            invariant
                ci <= children@.len(),
                backend.wf(),
                id < old(backend).spec_num_scopes(),
                backend.tasks@.len() == old(backend).tasks@.len(),
                backend.scopes@.len() == old(backend).scopes@.len(),
                edges_preserved(old(backend).tasks@, backend.tasks@),
                memberships_kept(old(backend).tasks@, backend.tasks@),
                scopes_elsewhere_kept(old(backend).scopes@, backend.scopes@, id as int),
                backend.spec_scope(id).active_count == old(backend).spec_scope(id).active_count,
                outputs_and_doneness_kept(old(backend).tasks@, backend.tasks@),
                backend.spec_scope(id).tasks >= old(backend).spec_scope(id).tasks,
                backend.spec_scope(id).unfinished_tasks >= old(backend).spec_scope(
                    id,
                ).unfinished_tasks,
                forall|j: int|
                    0 <= j < children@.len() ==> (#[trigger] children@[j])
                        < backend.spec_num_tasks(),
                frames_valid(work@, backend.spec_num_tasks()),
                queue_size == pending_count(work@),
                frames_valid(q_in, old(backend).spec_num_tasks()),
                crate::backend::actions_extended(old(actions)@, actions@),
                forall|a: int, b: int|
                    0 <= a < q_in.len() && 0 <= b < q_in[a].0@.len() ==> (add_child_settled(
                        *backend,
                        id,
                        #[trigger] q_in[a].0@[b],
                    ) || frames_carry(work@, q_in[a].0@[b]) || (exists|b2: int|
                        ci <= b2 < children@.len() && (#[trigger] children@[b2]) == q_in[a].0@[b])
                        || requeued_add(old(actions)@, actions@, q_in[a].0@[b])),
                forall|b: int|
                    0 <= b < ci ==> #[trigger] add_child_settled(*backend, id, children@[b]),
                q_in.len() != 0 && prior < TRAVERSAL_STEP_BUDGET ==> forall|b: int|
                    0 <= b < q_in.last().0@.len() ==> #[trigger] add_child_settled(
                        *backend,
                        id,
                        q_in.last().0@[b],
                    ),
            decreases children@.len() - ci,
        {
            let ghost pre2 = *backend;
            let ghost preacts2 = actions@;
            let ghost q_start = work@;
            let r = backend.add_to_scope_internal_shallow(children[ci], id, wbo, actions);
            proof {
                lemma_memberships_kept_trans(old(backend).tasks@, pre2.tasks@, backend.tasks@);
                lemma_outputs_doneness_kept_trans(
                    old(backend).tasks@,
                    pre2.tasks@,
                    backend.tasks@,
                );
                lemma_scopes_elsewhere_kept_trans(
                    old(backend).scopes@,
                    pre2.scopes@,
                    backend.scopes@,
                    id as int,
                );
                let t0 = children@[ci as int];
                assert(add_child_settled(*backend, id, t0));
                assert forall|c: TaskId|
                    c < pre2.tasks@.len() && add_child_settled(pre2, id, c) implies add_child_settled(*backend, id, c) by {
                    if c != t0 {
                        assert(backend.tasks@[c as int].scopes == pre2.tasks@[c as int].scopes);
                    }
                }
                assert forall|a: int, b: int|
                    0 <= a < q_in.len() && 0 <= b < q_in[a].0@.len() && requeued_add(
                        old(actions)@,
                        preacts2,
                        #[trigger] q_in[a].0@[b],
                    ) implies requeued_add(old(actions)@, actions@, q_in[a].0@[b]) by {
                    lemma_requeued_extend(old(actions)@, preacts2, actions@, q_in[a].0@[b]);
                }
            }
            let ghost acts_mid = actions@;
            match r {
                Some(frame) => {
                    match queue_size.checked_add(frame.0.len()) {
                        Some(new_size) => {
                            let ghost q1 = work@;
                            proof {
                                lemma_frame_entries_valid(
                                    pre2,
                                    *backend,
                                    children@[ci as int],
                                    frame.0@,
                                );
                            }
                            queue_size = new_size;
                            work.push(frame);
                            proof {
                                assert(work@.drop_last() =~= q1);
                                assert forall|a: int, b: int|
                                    0 <= a < work@.len() && 0 <= b < work@[a].0@.len() implies (
                                #[trigger] work@[a].0@[b]) < backend.spec_num_tasks() by {
                                    if a < work@.len() - 1 {
                                        assert(work@[a] == q1[a]);
                                    }
                                }
                                assert forall|c: TaskId| frames_carry(q1, c) implies frames_carry(
                                    work@,
                                    c,
                                ) by {
                                    let (a2, b2) = choose|a2: int, b2: int|
                                        0 <= a2 < q1.len() && 0 <= b2 < q1[a2].0@.len() && (
                                        #[trigger] q1[a2].0@[b2]) == c;
                                    assert(work@[a2].0@[b2] == c);
                                }
                            }
                        }
                        None => {
                            // The tally cannot grow any further: hand this
                            // frame to the runtime on its own.
                            let pending = frame.0.len();
                            let mut single: Vec<(Vec<TaskId>, bool)> = Vec::new();
                            proof {
                                lemma_frame_entries_valid(
                                    pre2,
                                    *backend,
                                    children@[ci as int],
                                    frame.0@,
                                );
                            }
                            single.push(frame);
                            actions.push(
                                Action::ForegroundJob(Job::AddToScopeQueue(single, pending, id)),
                            );
                        }
                    }
                }
                None => {}
            }
            proof {
                assert forall|b: int|
                    0 <= b < ci + 1 implies #[trigger] add_child_settled(
                    *backend,
                    id,
                    children@[b],
                ) by {
                    if b < ci as int {
                        assert(add_child_settled(pre2, id, children@[b]));
                    }
                }
                assert forall|a: int, b: int|
                    0 <= a < q_in.len() && 0 <= b < q_in[a].0@.len() implies (add_child_settled(
                    *backend,
                    id,
                    #[trigger] q_in[a].0@[b],
                ) || frames_carry(work@, q_in[a].0@[b]) || (exists|b2: int|
                    ci + 1 <= b2 < children@.len() && (#[trigger] children@[b2]) == q_in[a].0@[b])
                    || requeued_add(old(actions)@, actions@, q_in[a].0@[b])) by {
                    let c = q_in[a].0@[b];
                    let t0 = children@[ci as int];
                    if add_child_settled(pre2, id, c) {
                        assert(add_child_settled(*backend, id, c));
                    } else if frames_carry(q_start, c) {
                        let (a2, b2) = choose|a2: int, b2: int|
                            0 <= a2 < q_start.len() && 0 <= b2 < q_start[a2].0@.len() && (
                            #[trigger] q_start[a2].0@[b2]) == c;
                        assert(work@[a2].0@[b2] == c);
                    } else if exists|b2: int|
                        ci <= b2 < children@.len() && (#[trigger] children@[b2]) == c {
                        let b2 = choose|b2: int|
                            ci <= b2 < children@.len() && (#[trigger] children@[b2]) == c;
                        if b2 == ci {
                            assert(c == t0);
                            assert(add_child_settled(*backend, id, c));
                        } else {
                            assert(ci + 1 <= b2 < children@.len() && children@[b2] == c);
                        }
                    } else {
                        assert(requeued_add(old(actions)@, preacts2, c));
                        lemma_requeued_extend(old(actions)@, preacts2, actions@, c);
                    }
                }
            }
            ci += 1;
        }
        if work.len() > SPLIT_MIN_FRAMES && queue_size > SPLIT_MIN_PENDING {
            let ghost q2 = work@;
            let (split_off, moved) = split_scope_update_queue(&mut work, &mut queue_size);
            proof {
                assert forall|a: int, b: int|
                    0 <= a < work@.len() && 0 <= b < work@[a].0@.len() implies (
                #[trigger] work@[a].0@[b]) < backend.spec_num_tasks() by {
                    assert(work@[a] == q2[a]);
                }
            }
            let ghost split_view = split_off@;
            let ghost acts_before = actions@;
            actions.push(Action::ForegroundJob(Job::AddToScopeQueue(split_off, moved, id)));
            proof {
                assert forall|c: TaskId| frames_carry(q2, c) implies (frames_carry(work@, c)
                    || requeued_add(old(actions)@, actions@, c)) by {
                    let (a2, b2) = choose|a2: int, b2: int|
                        0 <= a2 < q2.len() && 0 <= b2 < q2[a2].0@.len() && (
                        #[trigger] q2[a2].0@[b2]) == c;
                    if a2 < work@.len() {
                        assert(work@[a2] == q2[a2]);
                        assert(work@[a2].0@[b2] == c);
                    } else {
                        let i2 = q2.len() - 1 - a2;
                        assert(split_view[i2] == q2[a2]);
                        assert(split_view[i2].0@[b2] == c);
                        assert(frames_carry(split_view, c));
                        assert(action_carries_add_child(
                            actions@[acts_before.len() as int],
                            c,
                        ));
                        assert(requeued_add(old(actions)@, actions@, c));
                    }
                }
                assert forall|c: TaskId|
                    requeued_add(old(actions)@, acts_before, c) implies requeued_add(
                    old(actions)@,
                    actions@,
                    c,
                ) by {
                    lemma_requeued_extend(old(actions)@, acts_before, actions@, c);
                }
            }
        }
        proof {
            if q_in.len() != 0 && prior == TRAVERSAL_STEP_BUDGET {
                assert(q0 == q_in);
                assert(children@ == q_in.last().0@);
                assert forall|b: int|
                    0 <= b < q_in.last().0@.len() implies #[trigger] add_child_settled(
                    *backend,
                    id,
                    q_in.last().0@[b],
                ) by {
                    assert(add_child_settled(*backend, id, children@[b]));
                }
            }
        }
    }
    proof {
        assert(add_queue_discharged(q_in, *backend, id, old(actions)@, actions@)) by {
            assert forall|a: int, b: int|
                0 <= a < q_in.len() && 0 <= b < q_in[a].0@.len() implies (add_child_settled(
                *backend,
                id,
                #[trigger] q_in[a].0@[b],
            ) || requeued_add(old(actions)@, actions@, q_in[a].0@[b])) by {
                let c = q_in[a].0@[b];
                assert(!frames_carry(work@, c));
            }
        }
    }
}

/// Processes a queue of child frames, removing each child (and transitively
/// its children) from the scope.  Splitting and budget exhaustion hand the
/// remainder back as background jobs.
#[verifier::rlimit(80)]
pub fn run_remove_from_scope_queue(
    queue: Vec<(Vec<TaskId>, bool)>,
    queue_size: usize,
    id: ScopeId,
    backend: &mut MemoryBackend,
    actions: &mut Vec<Action>,
)
    requires
        old(backend).wf(),
        id < old(backend).spec_num_scopes(),
        frames_valid(queue@, old(backend).spec_num_tasks()),
        queue_size == pending_count(queue@),
    ensures
        final(backend).wf(),
        final(backend).tasks@.len() == old(backend).tasks@.len(),
        final(backend).scopes@.len() == old(backend).scopes@.len(),
        memberships_not_grown(old(backend).tasks@, final(backend).tasks@),
        scopes_elsewhere_kept(old(backend).scopes@, final(backend).scopes@, id as int),
        final(backend).spec_scope(id).active_count == old(backend).spec_scope(id).active_count,
        remove_queue_discharged(
            queue@,
            *old(backend),
            *final(backend),
            id,
            old(actions)@,
            final(actions)@,
        ),
        queue@.len() != 0 ==> forall|b: int|
            0 <= b < queue@.last().0@.len() ==> #[trigger] remove_child_settled(
                *old(backend),
                *final(backend),
                id,
                queue@.last().0@[b],
            ),
{
    let ghost q_in = queue@;
    proof {
        assert forall|a: int, b: int|
            0 <= a < q_in.len() && 0 <= b < q_in[a].0@.len() implies frames_carry(
            q_in,
            #[trigger] q_in[a].0@[b],
        ) by {
            let c = q_in[a].0@[b];
            assert(0 <= a < q_in.len() && 0 <= b < q_in[a].0@.len() && q_in[a].0@[b] == c);
        }
    }
    let mut work = queue;
    let mut queue_size = queue_size;
    let mut budget: usize = TRAVERSAL_STEP_BUDGET;
    while work.len() != 0
        invariant
            backend.wf(),
            id < old(backend).spec_num_scopes(),
            backend.tasks@.len() == old(backend).tasks@.len(),
            backend.scopes@.len() == old(backend).scopes@.len(),
            memberships_not_grown(old(backend).tasks@, backend.tasks@),
            counts_not_grown(old(backend).tasks@, backend.tasks@, id),
            scopes_elsewhere_kept(old(backend).scopes@, backend.scopes@, id as int),
            backend.spec_scope(id).active_count == old(backend).spec_scope(id).active_count,
            frames_valid(work@, backend.spec_num_tasks()),
            queue_size == pending_count(work@),
            q_in == queue@,
            frames_valid(q_in, old(backend).spec_num_tasks()),
            crate::backend::actions_extended(old(actions)@, actions@),
            forall|a: int, b: int|
                0 <= a < q_in.len() && 0 <= b < q_in[a].0@.len() ==> (remove_child_settled(
                    *old(backend),
                    *backend,
                    id,
                    #[trigger] q_in[a].0@[b],
                ) || frames_carry(work@, q_in[a].0@[b]) || requeued_remove(
                    old(actions)@,
                    actions@,
                    q_in[a].0@[b],
                )),
            budget <= TRAVERSAL_STEP_BUDGET,
            budget == TRAVERSAL_STEP_BUDGET ==> work@ == q_in,
            q_in.len() != 0 && budget < TRAVERSAL_STEP_BUDGET ==> forall|b: int|
                0 <= b < q_in.last().0@.len() ==> #[trigger] remove_child_settled(
                    *old(backend),
                    *backend,
                    id,
                    q_in.last().0@[b],
                ),
        decreases budget,
    {
        let ghost prior = budget;
        if budget == 0 {
            let ghost qcur = work@;
            let ghost acts_before = actions@;
            actions.push(
                Action::BackgroundJob(Job::RemoveFromScopeQueue(work, queue_size, id)),
            );
            proof {
                assert(remove_queue_discharged(
                    q_in,
                    *old(backend),
                    *backend,
                    id,
                    old(actions)@,
                    actions@,
                )) by {
                    assert forall|a: int, b: int|
                        0 <= a < q_in.len() && 0 <= b < q_in[a].0@.len() implies (
                    remove_child_settled(
                        *old(backend),
                        *backend,
                        id,
                        #[trigger] q_in[a].0@[b],
                    ) || requeued_remove(old(actions)@, actions@, q_in[a].0@[b])) by {
                        let c = q_in[a].0@[b];
                        if frames_carry(qcur, c) {
                            assert(action_carries_remove_child(
                                actions@[acts_before.len() as int],
                                c,
                            ));
                            assert(requeued_remove(old(actions)@, actions@, c));
                        } else if requeued_remove(old(actions)@, acts_before, c) {
                            lemma_requeued_extend(old(actions)@, acts_before, actions@, c);
                        }
                    }
                }
            }
            return ;
        }
        budget = budget - 1;
        proof {
            lemma_pending_count_bounds(work@);
        }
        let ghost q0 = work@;
        let (children, wbo) = match work.pop() {
            Some(frame) => frame,
            None => {
                return ;
            }
        };
        queue_size = queue_size - children.len();
        proof {
            assert(children@ == q0.last().0@);
            assert forall|c: TaskId| frames_carry(q0, c) implies (frames_carry(work@, c) || (
            exists|b2: int| 0 <= b2 < children@.len() && (#[trigger] children@[b2]) == c)) by {
                let (a2, b2) = choose|a2: int, b2: int|
                    0 <= a2 < q0.len() && 0 <= b2 < q0[a2].0@.len() && (#[trigger] q0[a2].0@[b2])
                        == c;
                if a2 < q0.len() - 1 {
                    assert(work@[a2].0@[b2] == c);
                } else {
                    assert(children@[b2] == c);
                }
            }
        }
        let mut ci: usize = 0;
        while ci < children.len()
            invariant
                ci <= children@.len(),
                backend.wf(),
                id < old(backend).spec_num_scopes(),
                backend.tasks@.len() == old(backend).tasks@.len(),
                backend.scopes@.len() == old(backend).scopes@.len(),
                memberships_not_grown(old(backend).tasks@, backend.tasks@),
                counts_not_grown(old(backend).tasks@, backend.tasks@, id),
                scopes_elsewhere_kept(old(backend).scopes@, backend.scopes@, id as int),
                backend.spec_scope(id).active_count == old(backend).spec_scope(id).active_count,
                forall|j: int|
                    0 <= j < children@.len() ==> (#[trigger] children@[j])
                        < backend.spec_num_tasks(),
                frames_valid(work@, backend.spec_num_tasks()),
                queue_size == pending_count(work@),
                frames_valid(q_in, old(backend).spec_num_tasks()),
                crate::backend::actions_extended(old(actions)@, actions@),
                forall|a: int, b: int|
                    0 <= a < q_in.len() && 0 <= b < q_in[a].0@.len() ==> (remove_child_settled(
                        *old(backend),
                        *backend,
                        id,
                        #[trigger] q_in[a].0@[b],
                    ) || frames_carry(work@, q_in[a].0@[b]) || (exists|b2: int|
                        ci <= b2 < children@.len() && (#[trigger] children@[b2]) == q_in[a].0@[b])
                        || requeued_remove(old(actions)@, actions@, q_in[a].0@[b])),
                forall|b: int|
                    0 <= b < ci ==> #[trigger] remove_child_settled(
                        *old(backend),
                        *backend,
                        id,
                        children@[b],
                    ),
                q_in.len() != 0 && prior < TRAVERSAL_STEP_BUDGET ==> forall|b: int|
                    0 <= b < q_in.last().0@.len() ==> #[trigger] remove_child_settled(
                        *old(backend),
                        *backend,
                        id,
                        q_in.last().0@[b],
                    ),
            decreases children@.len() - ci,
        {
            let ghost pre2 = *backend;
            let ghost preacts2 = actions@;
            let ghost q_start = work@;
            let r = backend.remove_from_scope_internal_shallow(children[ci], id, wbo, actions);
            proof {
                lemma_memberships_not_grown_trans(
                    old(backend).tasks@,
                    pre2.tasks@,
                    backend.tasks@,
                );
                lemma_scopes_elsewhere_kept_trans(
                    old(backend).scopes@,
                    pre2.scopes@,
                    backend.scopes@,
                    id as int,
                );
                let t0 = children@[ci as int];
                assert(crate::backend::valid_task(
                    pre2.tasks@[t0 as int],
                    pre2.spec_num_tasks(),
                    pre2.spec_num_scopes(),
                ));
                if pre2.tasks@[t0 as int].scopes.spec_is_inner() {
                    crate::scope::lemma_remove_count_same(
                        pre2.tasks@[t0 as int].scopes->Inner_0.entries(),
                        id,
                    );
                }
                assert(counts_not_grown(pre2.tasks@, backend.tasks@, id)) by {
                    assert forall|i: int|
                        0 <= i < pre2.tasks@.len() && (
                    #[trigger] pre2.tasks@[i]).scopes.spec_is_inner() implies (
                    backend.tasks@[i].scopes.spec_is_inner()
                        && backend.tasks@[i].scopes->Inner_0.count_of(id)
                        <= pre2.tasks@[i].scopes->Inner_0.count_of(id)) by {
                        if i != t0 {
                            assert(backend.tasks@[i].scopes == pre2.tasks@[i].scopes);
                        } else {
                            assert(crate::scope::scope_entries_wf(
                                pre2.tasks@[t0 as int].scopes->Inner_0.entries(),
                            ));
                            assert(backend.tasks@[t0 as int].scopes->Inner_0.entries()
                                == spec_list_remove(
                                pre2.tasks@[t0 as int].scopes->Inner_0.entries(),
                                id,
                            ));
                            crate::scope::lemma_count_at_index(
                                pre2.tasks@[t0 as int].scopes->Inner_0.entries(),
                                id,
                            );
                        }
                    }
                }
                assert(counts_not_grown(old(backend).tasks@, backend.tasks@, id)) by {
                    assert forall|i: int|
                        0 <= i < old(backend).tasks@.len() && (
                    #[trigger] old(backend).tasks@[i]).scopes.spec_is_inner() implies (
                    backend.tasks@[i].scopes.spec_is_inner()
                        && backend.tasks@[i].scopes->Inner_0.count_of(id) <= old(
                        backend,
                    ).tasks@[i].scopes->Inner_0.count_of(id)) by {
                        assert(pre2.tasks@[i].scopes.spec_is_inner()
                            && pre2.tasks@[i].scopes->Inner_0.count_of(id) <= old(
                            backend,
                        ).tasks@[i].scopes->Inner_0.count_of(id));
                    }
                }
                assert(remove_child_settled(*old(backend), *backend, id, t0));
                assert forall|c: TaskId|
                    c < pre2.tasks@.len() && remove_child_settled(
                        *old(backend),
                        pre2,
                        id,
                        c,
                    ) implies remove_child_settled(*old(backend), *backend, id, c) by {
                    if c != t0 {
                        assert(backend.tasks@[c as int].scopes == pre2.tasks@[c as int].scopes);
                    }
                }
            }
            let ghost acts_mid = actions@;
            match r {
                Some(frame) => {
                    match queue_size.checked_add(frame.0.len()) {
                        Some(new_size) => {
                            let ghost q1 = work@;
                            proof {
                                lemma_frame_entries_valid(
                                    pre2,
                                    *backend,
                                    children@[ci as int],
                                    frame.0@,
                                );
                            }
                            queue_size = new_size;
                            work.push(frame);
                            proof {
                                assert(work@.drop_last() =~= q1);
                                assert forall|a: int, b: int|
                                    0 <= a < work@.len() && 0 <= b < work@[a].0@.len() implies (
                                #[trigger] work@[a].0@[b]) < backend.spec_num_tasks() by {
                                    if a < work@.len() - 1 {
                                        assert(work@[a] == q1[a]);
                                    }
                                }
                                assert forall|c: TaskId| frames_carry(q1, c) implies frames_carry(
                                    work@,
                                    c,
                                ) by {
                                    let (a2, b2) = choose|a2: int, b2: int|
                                        0 <= a2 < q1.len() && 0 <= b2 < q1[a2].0@.len() && (
                                        #[trigger] q1[a2].0@[b2]) == c;
                                    assert(work@[a2].0@[b2] == c);
                                }
                            }
                        }
                        None => {
                            let pending = frame.0.len();
                            let mut single: Vec<(Vec<TaskId>, bool)> = Vec::new();
                            proof {
                                lemma_frame_entries_valid(
                                    pre2,
                                    *backend,
                                    children@[ci as int],
                                    frame.0@,
                                );
                            }
                            single.push(frame);
                            actions.push(
                                Action::BackgroundJob(
                                    Job::RemoveFromScopeQueue(single, pending, id),
                                ),
                            );
                        }
                    }
                }
                None => {}
            }
            proof {
                assert forall|b: int|
                    0 <= b < ci + 1 implies #[trigger] remove_child_settled(
                    *old(backend),
                    *backend,
                    id,
                    children@[b],
                ) by {
                    if b < ci as int {
                        assert(remove_child_settled(*old(backend), pre2, id, children@[b]));
                    }
                }
                if q_in.len() != 0 && prior < TRAVERSAL_STEP_BUDGET {
                    assert(q_in.last() == q_in[q_in.len() - 1]);
                    assert forall|b: int|
                        0 <= b < q_in.last().0@.len() implies #[trigger] remove_child_settled(
                        *old(backend),
                        *backend,
                        id,
                        q_in.last().0@[b],
                    ) by {
                        assert(q_in[q_in.len() - 1].0@[b] < old(backend).spec_num_tasks());
                        assert(remove_child_settled(
                            *old(backend),
                            pre2,
                            id,
                            q_in.last().0@[b],
                        ));
                    }
                }
                assert forall|a: int, b: int|
                    0 <= a < q_in.len() && 0 <= b < q_in[a].0@.len() implies (
                remove_child_settled(
                    *old(backend),
                    *backend,
                    id,
                    #[trigger] q_in[a].0@[b],
                ) || frames_carry(work@, q_in[a].0@[b]) || (exists|b2: int|
                    ci + 1 <= b2 < children@.len() && (#[trigger] children@[b2]) == q_in[a].0@[b])
                    || requeued_remove(old(actions)@, actions@, q_in[a].0@[b])) by {
                    let c = q_in[a].0@[b];
                    let t0 = children@[ci as int];
                    if remove_child_settled(*old(backend), pre2, id, c) {
                        assert(remove_child_settled(*old(backend), *backend, id, c));
                    } else if frames_carry(q_start, c) {
                        let (a2, b2) = choose|a2: int, b2: int|
                            0 <= a2 < q_start.len() && 0 <= b2 < q_start[a2].0@.len() && (
                            #[trigger] q_start[a2].0@[b2]) == c;
                        assert(work@[a2].0@[b2] == c);
                    } else if exists|b2: int|
                        ci <= b2 < children@.len() && (#[trigger] children@[b2]) == c {
                        let b2 = choose|b2: int|
                            ci <= b2 < children@.len() && (#[trigger] children@[b2]) == c;
                        if b2 == ci {
                            assert(c == t0);
                            assert(remove_child_settled(*old(backend), *backend, id, c));
                        } else {
                            assert(ci + 1 <= b2 < children@.len() && children@[b2] == c);
                        }
                    } else {
                        assert(requeued_remove(old(actions)@, preacts2, c));
                        lemma_requeued_extend(old(actions)@, preacts2, actions@, c);
                    }
                }
            }
            ci += 1;
        }
        if work.len() > SPLIT_MIN_FRAMES && queue_size > SPLIT_MIN_PENDING {
            let ghost q2 = work@;
            let (split_off, moved) = split_scope_update_queue(&mut work, &mut queue_size);
            proof {
                assert forall|a: int, b: int|
                    0 <= a < work@.len() && 0 <= b < work@[a].0@.len() implies (
                #[trigger] work@[a].0@[b]) < backend.spec_num_tasks() by {
                    assert(work@[a] == q2[a]);
                }
            }
            let ghost split_view = split_off@;
            let ghost acts_before = actions@;
            actions.push(
                Action::BackgroundJob(Job::RemoveFromScopeQueue(split_off, moved, id)),
            );
            proof {
                assert forall|c: TaskId| frames_carry(q2, c) implies (frames_carry(work@, c)
                    || requeued_remove(old(actions)@, actions@, c)) by {
                    let (a2, b2) = choose|a2: int, b2: int|
                        0 <= a2 < q2.len() && 0 <= b2 < q2[a2].0@.len() && (
                        #[trigger] q2[a2].0@[b2]) == c;
                    if a2 < work@.len() {
                        assert(work@[a2] == q2[a2]);
                        assert(work@[a2].0@[b2] == c);
                    } else {
                        let i2 = q2.len() - 1 - a2;
                        assert(split_view[i2] == q2[a2]);
                        assert(split_view[i2].0@[b2] == c);
                        assert(frames_carry(split_view, c));
                        assert(action_carries_remove_child(
                            actions@[acts_before.len() as int],
                            c,
                        ));
                        assert(requeued_remove(old(actions)@, actions@, c));
                    }
                }
                assert forall|c: TaskId|
                    requeued_remove(old(actions)@, acts_before, c) implies requeued_remove(
                    old(actions)@,
                    actions@,
                    c,
                ) by {
                    lemma_requeued_extend(old(actions)@, acts_before, actions@, c);
                }
            }
        }
        proof {
            if q_in.len() != 0 && prior == TRAVERSAL_STEP_BUDGET {
                assert(q0 == q_in);
                assert(children@ == q_in.last().0@);
                assert forall|b: int|
                    0 <= b < q_in.last().0@.len() implies #[trigger] remove_child_settled(
                    *old(backend),
                    *backend,
                    id,
                    q_in.last().0@[b],
                ) by {
                    assert(remove_child_settled(*old(backend), *backend, id, children@[b]));
                }
            }
        }
    }
    proof {
        assert(remove_queue_discharged(
            q_in,
            *old(backend),
            *backend,
            id,
            old(actions)@,
            actions@,
        )) by {
            assert forall|a: int, b: int|
                0 <= a < q_in.len() && 0 <= b < q_in[a].0@.len() implies (remove_child_settled(
                *old(backend),
                *backend,
                id,
                #[trigger] q_in[a].0@[b],
            ) || requeued_remove(old(actions)@, actions@, q_in[a].0@[b])) by {
                let c = q_in[a].0@[b];
                assert(!frames_carry(work@, c));
            }
        }
    }
}

/// A slice of actions that gained no promotion job for `t` keeps its count.
pub proof fn lemma_count_promotions_delta_zero(pre: Seq<Action>, post: Seq<Action>, t: TaskId)
    requires
        post.len() >= pre.len(),
        forall|i: int| 0 <= i < pre.len() ==> post[i] == pre[i],
        forall|i: int|
            pre.len() <= i < post.len() ==> !(#[trigger] post[i] matches Action::BackgroundJob(
                Job::MakeRootScoped(x),
            ) && x == t),
    ensures
        count_promotions(post, t) == count_promotions(pre, t),
    decreases post.len() - pre.len(),
{
    if post.len() > pre.len() {
        let shorter = post.drop_last();
        lemma_count_promotions_delta_zero(pre, shorter, t);
    } else {
        assert(post =~= pre);
    }
}

} // verus!
