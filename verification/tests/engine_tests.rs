use task_engine::backend::{Action, Job, Listener, MemoryBackend};
use task_engine::handle::{ScopeId, TaskId, ValueHandle};
use task_engine::output::ReadError;
use task_engine::scope_ops::split_scope_update_queue;
use task_engine::task::{Task, TaskStateType};
use task_engine::tracker::ExecutionTracker;

fn new_native_task(b: &mut MemoryBackend, f: usize) -> TaskId {
    let id = b.num_tasks();
    b.insert_cached_task(Task::new_native(id, Vec::new(), f))
}

fn count_promotion_jobs(actions: &[Action], task: TaskId) -> usize {
    actions
        .iter()
        .filter(|a| matches!(a, Action::BackgroundJob(Job::MakeRootScoped(t)) if *t == task))
        .count()
}

fn child_count(b: &MemoryBackend, scope: ScopeId, child: ScopeId) -> u32 {
    b.scopes[scope]
        .children
        .into_scopes()
        .iter()
        .find(|(s, _)| *s == child)
        .map(|(_, c)| *c)
        .unwrap_or(0)
}

/// Runs one full execution of a task that is already Scheduled, linking the
/// given result.
fn run_once(
    b: &mut MemoryBackend,
    t: TaskId,
    result: Result<ValueHandle, usize>,
    deps: Vec<ValueHandle>,
    actions: &mut Vec<Action>,
) -> bool {
    assert!(b.execution_started(t, actions));
    b.execution_result(t, result, actions);
    b.execution_completed(t, None, deps, 5, actions)
}

#[test]
fn memoized_task_runs_once_and_serves_both_readers() {
    let mut b = MemoryBackend::new();
    let mut actions = Vec::new();
    let f = new_native_task(&mut b, 1);
    assert_eq!(b.tasks[f].state_type, TaskStateType::Dirty);
    b.schedule_when_dirty(f, &mut actions);
    assert_eq!(b.tasks[f].state_type, TaskStateType::Scheduled);
    let handle = ValueHandle::TaskCell(f, 0);
    run_once(&mut b, f, Ok(handle), Vec::new(), &mut actions);
    assert_eq!(b.tasks[f].state_type, TaskStateType::Done);
    assert_eq!(b.tasks[f].executions, 1);
    // Two callers read; the task does not run again.
    let r1 = b.get_or_wait_output(f, false, true, 100, &mut actions);
    let r2 = b.get_or_wait_output(f, false, true, 101, &mut actions);
    assert_eq!(r1, Ok(Ok(handle)));
    assert_eq!(r2, Ok(Ok(handle)));
    assert_eq!(b.tasks[f].executions, 1);
}

#[test]
fn invalidation_in_inactive_scope_parks_the_task() {
    let mut b = MemoryBackend::new();
    let mut actions = Vec::new();
    let g = new_native_task(&mut b, 2);
    let s = b.create_new_scope();
    b.add_to_scope_internal(g, s, false, &mut actions);
    b.schedule_when_dirty(g, &mut actions);
    run_once(&mut b, g, Ok(ValueHandle::TaskOutput(g)), Vec::new(), &mut actions);
    assert_eq!(b.tasks[g].state_type, TaskStateType::Done);
    assert_eq!(b.scopes[s].unfinished_tasks, 0);
    // The invalidator fires while nobody observes the scope.
    let tracker = ExecutionTracker::new(g);
    let inv = tracker.get_invalidator();
    actions.clear();
    b.invalidate(inv.task, &mut actions);
    assert_eq!(b.tasks[g].state_type, TaskStateType::Dirty);
    assert!(!actions.iter().any(|a| matches!(a, Action::Schedule(_))));
    assert_eq!(b.scopes[s].unfinished_tasks, 1);
    // Observation starts: the parked task is scheduled exactly then.
    actions.clear();
    b.increase_scope_active(s, &mut actions);
    assert_eq!(b.tasks[g].state_type, TaskStateType::Scheduled);
    assert!(actions.iter().any(|a| matches!(a, Action::Schedule(t) if *t == g)));
}

#[test]
fn user_errors_propagate_and_clear_on_rerun() {
    let mut b = MemoryBackend::new();
    let mut actions = Vec::new();
    let h = new_native_task(&mut b, 3);
    b.schedule_when_dirty(h, &mut actions);
    run_once(&mut b, h, Err(77), Vec::new(), &mut actions);
    // A reader sees the captured error.
    let k = new_native_task(&mut b, 4);
    let r = b.get_or_wait_output(h, false, true, k, &mut actions);
    assert_eq!(r, Ok(Err(ReadError::UserError(77))));
    // Fixing the producer and invalidating reruns it; the reader then sees
    // the value.
    b.invalidate(h, &mut actions);
    b.schedule_when_dirty(h, &mut actions);
    let idx = {
        let t = &mut b.tasks[h];
        let idx = t.get_fresh_cell();
        t.created_cells[idx].assign(42);
        idx
    };
    run_once(&mut b, h, Ok(ValueHandle::TaskCell(h, idx)), Vec::new(), &mut actions);
    let r = b.get_or_wait_output(h, false, true, k, &mut actions);
    assert_eq!(r, Ok(Ok(ValueHandle::TaskCell(h, idx))));
    let cell = &mut b.tasks[h].created_cells[idx];
    assert_eq!(cell.read(k), Ok(42));
}

#[test]
fn result_of_invalidated_execution_is_discarded() {
    let mut b = MemoryBackend::new();
    let mut actions = Vec::new();
    let p = new_native_task(&mut b, 5);
    b.schedule_when_dirty(p, &mut actions);
    assert!(b.execution_started(p, &mut actions));
    // The invalidation arrives while the body is still running.
    b.invalidate(p, &mut actions);
    assert_eq!(b.tasks[p].state_type, TaskStateType::InProgressDirty);
    b.execution_result(p, Ok(ValueHandle::TaskOutput(p)), &mut actions);
    let again = b.execution_completed(p, None, Vec::new(), 5, &mut actions);
    // No scope is active, so the task parks as Dirty and the stale result
    // was never linked.
    assert!(!again);
    assert_eq!(b.tasks[p].state_type, TaskStateType::Dirty);
    assert_eq!(b.tasks[p].output.read_untracked(), Err(ReadError::Empty));
}

#[test]
fn completed_execution_replaces_dependencies_entirely() {
    let mut b = MemoryBackend::new();
    let mut actions = Vec::new();
    let a = new_native_task(&mut b, 6);
    let c = new_native_task(&mut b, 7);
    let t = new_native_task(&mut b, 8);
    b.schedule_when_dirty(t, &mut actions);
    let mut tracker = ExecutionTracker::new(t);
    tracker.add_dependency_to_current(ValueHandle::TaskOutput(a));
    assert!(b.execution_started(t, &mut actions));
    b.execution_result(t, Ok(ValueHandle::TaskOutput(t)), &mut actions);
    b.execution_completed(t, None, tracker.take_dependencies(), 5, &mut actions);
    let deps: Vec<_> = b.tasks[t]
        .get_stats_references()
        .into_iter()
        .filter(|(k, _)| matches!(k, task_engine::task::ReferenceType::Dependency))
        .map(|(_, id)| id)
        .collect();
    assert_eq!(deps, vec![a]);
    // The next execution records a different set; the old one is gone.
    b.invalidate(t, &mut actions);
    b.schedule_when_dirty(t, &mut actions);
    let mut tracker = ExecutionTracker::new(t);
    tracker.add_dependency_to_current(ValueHandle::TaskOutput(c));
    assert!(b.execution_started(t, &mut actions));
    b.execution_result(t, Ok(ValueHandle::TaskOutput(t)), &mut actions);
    b.execution_completed(t, None, tracker.take_dependencies(), 5, &mut actions);
    let deps: Vec<_> = b.tasks[t]
        .get_stats_references()
        .into_iter()
        .filter(|(k, _)| matches!(k, task_engine::task::ReferenceType::Dependency))
        .map(|(_, id)| id)
        .collect();
    assert_eq!(deps, vec![c]);
}

#[test]
fn invalidation_drops_back_edges() {
    let mut b = MemoryBackend::new();
    let mut actions = Vec::new();
    let a = new_native_task(&mut b, 15);
    let t = new_native_task(&mut b, 16);
    b.schedule_when_dirty(a, &mut actions);
    run_once(&mut b, a, Ok(ValueHandle::TaskOutput(a)), Vec::new(), &mut actions);
    // While t executes it reads a's output: the back-edge appears and the
    // forward edge is installed on completion.
    b.schedule_when_dirty(t, &mut actions);
    assert!(b.execution_started(t, &mut actions));
    let mut tracker = ExecutionTracker::new(t);
    let read = b.tasks[a].output.read(t);
    assert!(read.is_ok());
    tracker.add_dependency_to_current(ValueHandle::TaskOutput(a));
    b.execution_result(t, Ok(ValueHandle::TaskOutput(t)), &mut actions);
    b.execution_completed(t, None, tracker.take_dependencies(), 1, &mut actions);
    assert!(b.tasks[a].output.dependent_tasks.contains(&t));
    // A change of a's output would notify exactly its dependents.
    actions.clear();
    b.execution_started(a, &mut actions); // Done: refused, nothing runs
    let notify = b.tasks[a].output.link(ValueHandle::TaskCell(a, 0));
    assert_eq!(notify, Some(vec![t]));
    // Invalidating t clears its dependencies and both sides of the edge.
    b.invalidate(t, &mut actions);
    assert!(!b.tasks[a].output.dependent_tasks.contains(&t));
}

#[test]
fn connect_child_twice_equals_once() {
    let mut b = MemoryBackend::new();
    let mut actions = Vec::new();
    let parent = new_native_task(&mut b, 9);
    let child = new_native_task(&mut b, 10);
    let s = b.create_new_scope();
    b.add_to_scope_internal(parent, s, false, &mut actions);
    actions.clear();
    b.connect_child(parent, child, &mut actions);
    let tasks_after_first = b.scopes[s].tasks;
    let unfinished_after_first = b.scopes[s].unfinished_tasks;
    assert_eq!(tasks_after_first, 2);
    actions.clear();
    b.connect_child(parent, child, &mut actions);
    assert!(actions.is_empty());
    assert_eq!(b.scopes[s].tasks, tasks_after_first);
    assert_eq!(b.scopes[s].unfinished_tasks, unfinished_after_first);
}

#[test]
fn add_then_remove_scope_membership_is_a_noop_on_counters() {
    let mut b = MemoryBackend::new();
    let mut actions = Vec::new();
    let t = new_native_task(&mut b, 11);
    let s = b.create_new_scope();
    assert_eq!(b.scopes[s].tasks, 0);
    assert_eq!(b.scopes[s].unfinished_tasks, 0);
    b.add_to_scope_internal(t, s, false, &mut actions);
    assert_eq!(b.scopes[s].tasks, 1);
    assert_eq!(b.scopes[s].unfinished_tasks, 1);
    b.remove_from_scope(t, s, &mut actions);
    assert_eq!(b.scopes[s].tasks, 0);
    assert_eq!(b.scopes[s].unfinished_tasks, 0);
}

#[test]
fn hundredth_scope_triggers_exactly_one_promotion_job() {
    let mut b = MemoryBackend::new();
    let mut actions = Vec::new();
    let q = new_native_task(&mut b, 12);
    for _ in 0..99 {
        let s = b.create_new_scope();
        b.add_to_scope_internal(q, s, false, &mut actions);
    }
    assert_eq!(count_promotion_jobs(&actions, q), 0);
    let s100 = b.create_new_scope();
    b.add_to_scope_internal(q, s100, false, &mut actions);
    assert_eq!(count_promotion_jobs(&actions, q), 1);
    // Later additions do not queue another promotion.
    let s101 = b.create_new_scope();
    b.add_to_scope_internal(q, s101, false, &mut actions);
    assert_eq!(count_promotion_jobs(&actions, q), 1);
}

#[test]
fn promotion_moves_the_task_into_a_fresh_root_scope() {
    let mut b = MemoryBackend::new();
    let mut actions = Vec::new();
    let q = new_native_task(&mut b, 13);
    let mut old_scopes = Vec::new();
    for _ in 0..100 {
        let s = b.create_new_scope();
        old_scopes.push(s);
        b.add_to_scope_internal(q, s, false, &mut actions);
    }
    let expected_root = b.num_scopes();
    actions.clear();
    b.make_root_scoped(q, &mut actions);
    assert!(b.tasks[q].scopes.is_root());
    assert_eq!(b.num_scopes(), expected_root + 1);
    for &s in &old_scopes {
        assert_eq!(child_count(&b, s, expected_root), 1);
        // The task itself left the old scope's books.
        assert_eq!(b.scopes[s].tasks, 0);
        assert_eq!(b.scopes[s].unfinished_tasks, 0);
    }
    assert_eq!(b.scopes[expected_root].tasks, 1);
    assert_eq!(b.scopes[expected_root].unfinished_tasks, 1);
    // A second promotion finds the root already in place.
    actions.clear();
    b.make_root_scoped(q, &mut actions);
    assert!(actions.is_empty());
    assert_eq!(b.num_scopes(), expected_root + 1);
}

#[test]
fn queue_split_halves_the_pending_count() {
    let mut queue = Vec::new();
    for f in 0..6 {
        let frame: Vec<TaskId> = (0..30).map(|i| f * 30 + i).collect();
        queue.push((frame, false));
    }
    let mut queue_size = 180;
    let (split_off, moved) = split_scope_update_queue(&mut queue, &mut queue_size);
    assert_eq!(queue_size + moved, 180);
    assert!(queue_size <= 90 || queue.len() == 2);
    assert!(queue.len() >= 2);
    let moved_children: usize = split_off.iter().map(|(c, _)| c.len()).sum();
    assert_eq!(moved_children, moved);
}

#[test]
fn strongly_consistent_read_pins_a_root_scope() {
    let mut b = MemoryBackend::new();
    let mut actions = Vec::new();
    let t = new_native_task(&mut b, 14);
    let s = b.create_new_scope();
    b.add_to_scope_internal(t, s, false, &mut actions);
    b.schedule_when_dirty(t, &mut actions);
    let handle = ValueHandle::TaskCell(t, 0);
    run_once(&mut b, t, Ok(handle), Vec::new(), &mut actions);
    // Pending foreground work forces the caller to wait.
    let r = b.get_or_wait_output(t, true, false, 50, &mut actions);
    assert_eq!(r, Err(Listener::ForegroundPending));
    assert!(b.tasks[t].scopes.is_root());
    // With the foreground drained and nothing unfinished, the read lands.
    let r = b.get_or_wait_output(t, true, true, 50, &mut actions);
    assert_eq!(r, Ok(Ok(handle)));
}

#[test]
fn root_tasks_start_scheduled_and_settle_their_scope() {
    let mut b = MemoryBackend::new();
    let mut actions = Vec::new();
    let r = b.insert_root_task(false);
    assert_eq!(b.tasks[r].state_type, TaskStateType::Scheduled);
    assert!(b.tasks[r].scopes.is_root());
    run_once(&mut b, r, Ok(ValueHandle::TaskOutput(r)), Vec::new(), &mut actions);
    assert!(actions.iter().any(|a| matches!(a, Action::ScopeSettled(_))));
    assert!(actions.iter().any(|a| matches!(a, Action::TaskDone(t) if *t == r)));
}

#[test]
fn unfinished_counter_reaches_zero_exactly_when_all_members_are_done() {
    let mut b = MemoryBackend::new();
    let mut actions = Vec::new();
    let s = b.create_new_scope();
    let t1 = new_native_task(&mut b, 20);
    let t2 = new_native_task(&mut b, 21);
    b.add_to_scope_internal(t1, s, false, &mut actions);
    b.add_to_scope_internal(t2, s, false, &mut actions);
    assert_eq!(b.scopes[s].unfinished_tasks, 2);
    b.schedule_when_dirty(t1, &mut actions);
    run_once(&mut b, t1, Ok(ValueHandle::TaskOutput(t1)), Vec::new(), &mut actions);
    // One member still pending: the scope is not settled.
    assert_eq!(b.scopes[s].unfinished_tasks, 1);
    b.schedule_when_dirty(t2, &mut actions);
    run_once(&mut b, t2, Ok(ValueHandle::TaskOutput(t2)), Vec::new(), &mut actions);
    assert_eq!(b.scopes[s].unfinished_tasks, 0);
    assert_eq!(b.tasks[t1].state_type, TaskStateType::Done);
    assert_eq!(b.tasks[t2].state_type, TaskStateType::Done);
}

#[test]
fn once_tasks_never_become_dirty_and_drop_their_root() {
    let mut b = MemoryBackend::new();
    let mut actions = Vec::new();
    let o = b.insert_root_task(true);
    run_once(&mut b, o, Ok(ValueHandle::TaskOutput(o)), Vec::new(), &mut actions);
    assert!(actions
        .iter()
        .any(|a| matches!(a, Action::BackgroundJob(Job::RemoveRootScope(t)) if *t == o)));
    actions.clear();
    b.invalidate(o, &mut actions);
    assert_eq!(b.tasks[o].state_type, TaskStateType::Done);
    assert!(actions.is_empty());
    // The queued job strips the root scope.
    b.remove_root_scope(o, &mut actions);
    assert!(!b.tasks[o].scopes.is_root());
}

#[test]
fn removing_the_last_occurrence_unparks_the_dirty_task() {
    let mut b = MemoryBackend::new();
    let mut actions = Vec::new();
    let s = b.create_new_scope();
    let t = new_native_task(&mut b, 40);
    // The scope is not observed, so the dirty task is parked in its set.
    b.add_to_scope_internal(t, s, false, &mut actions);
    assert!(b.scopes[s].dirty_tasks.contains(&t));
    assert_eq!(b.scopes[s].unfinished_tasks, 1);
    b.remove_from_scope(t, s, &mut actions);
    assert!(!b.scopes[s].dirty_tasks.contains(&t));
    assert_eq!(b.scopes[s].tasks, 0);
    assert_eq!(b.scopes[s].unfinished_tasks, 0);
}

#[test]
fn promotion_books_the_task_out_of_the_old_scopes() {
    let mut b = MemoryBackend::new();
    let mut actions = Vec::new();
    let s = b.create_new_scope();
    let t = new_native_task(&mut b, 41);
    b.add_to_scope_internal(t, s, false, &mut actions);
    assert!(b.scopes[s].dirty_tasks.contains(&t));
    b.make_root_scoped(t, &mut actions);
    let root = match &b.tasks[t].scopes {
        task_engine::task::TaskScopes::Root(r) => *r,
        task_engine::task::TaskScopes::Inner(_) => panic!("task was not promoted"),
    };
    // The old scope no longer counts or parks the task, and holds the new
    // root as a child once.
    assert!(!b.scopes[s].dirty_tasks.contains(&t));
    assert_eq!(b.scopes[s].tasks, 0);
    assert_eq!(b.scopes[s].unfinished_tasks, 0);
    assert_eq!(child_count(&b, s, root), 1);
}

#[test]
fn invalidating_an_observed_task_requests_one_run() {
    let mut b = MemoryBackend::new();
    let mut actions = Vec::new();
    let s = b.create_new_scope();
    let t = new_native_task(&mut b, 42);
    b.increase_scope_active(s, &mut actions);
    b.add_to_scope_internal(t, s, false, &mut actions);
    // The scope is observed, so the dirty task was scheduled on entry; run it.
    let handle = ValueHandle::TaskCell(t, 0);
    run_once(&mut b, t, Ok(handle), Vec::new(), &mut actions);
    assert_eq!(b.tasks[t].state_type, TaskStateType::Done);
    let mut wake = Vec::new();
    b.make_dirty(t, &mut wake);
    assert_eq!(b.tasks[t].state_type, TaskStateType::Scheduled);
    assert_eq!(wake.len(), 1);
    assert!(matches!(wake[0], Action::Schedule(x) if x == t));
}

#[test]
fn invalidation_removes_cell_back_edges() {
    let mut b = MemoryBackend::new();
    let mut actions = Vec::new();
    let p = new_native_task(&mut b, 50);
    let r = new_native_task(&mut b, 51);
    let cell = b.tasks[p].get_fresh_cell();
    assert_eq!(cell, 0);
    // The reader runs, reads the producer's cell, and records the edge.
    b.schedule_when_dirty(r, &mut actions);
    assert!(b.execution_started(r, &mut actions));
    let _ = b.tasks[p].created_cells[cell].read(r);
    b.execution_result(r, Ok(ValueHandle::TaskCell(p, cell)), &mut actions);
    b.execution_completed(r, None, vec![ValueHandle::TaskCell(p, cell)], 1, &mut actions);
    assert!(b.tasks[p].created_cells[cell].dependent_tasks.contains(&r));
    // Invalidating the reader removes the cell-side back-edge too.
    b.make_dirty(r, &mut actions);
    assert!(!b.tasks[p].created_cells[cell].dependent_tasks.contains(&r));
}

#[test]
fn settled_root_read_succeeds() {
    let mut b = MemoryBackend::new();
    let mut actions = Vec::new();
    let t = b.insert_root_task(false);
    let handle = ValueHandle::TaskCell(t, 0);
    run_once(&mut b, t, Ok(handle), Vec::new(), &mut actions);
    // The root scope is settled and childless: the strong read is owed.
    let r = b.get_or_wait_output(t, true, true, 7, &mut actions);
    assert_eq!(r, Ok(Ok(handle)));
}

#[test]
fn connecting_a_root_scoped_child_links_its_root() {
    let mut b = MemoryBackend::new();
    let mut actions = Vec::new();
    let parent = b.insert_root_task(false);
    let child = b.insert_root_task(false);
    let parent_scope = match &b.tasks[parent].scopes {
        task_engine::task::TaskScopes::Root(s) => *s,
        task_engine::task::TaskScopes::Inner(_) => panic!("parent should be root-scoped"),
    };
    let child_root = match &b.tasks[child].scopes {
        task_engine::task::TaskScopes::Root(s) => *s,
        task_engine::task::TaskScopes::Inner(_) => panic!("child should be root-scoped"),
    };
    b.connect_child(parent, child, &mut actions);
    // The child keeps its own root scope; that root becomes a counted
    // child of the parent's scope.
    assert_eq!(child_count(&b, parent_scope, child_root), 1);
}

#[test]
fn removing_a_non_member_changes_nothing() {
    let mut b = MemoryBackend::new();
    let mut actions = Vec::new();
    let s = b.create_new_scope();
    let t = new_native_task(&mut b, 60);
    b.remove_from_scope(t, s, &mut actions);
    assert_eq!(b.scopes[s].tasks, 0);
    assert_eq!(b.scopes[s].unfinished_tasks, 0);
    assert!(actions.is_empty());
    match &b.tasks[t].scopes {
        task_engine::task::TaskScopes::Inner(list) => assert!(list.is_empty()),
        task_engine::task::TaskScopes::Root(_) => panic!("task should stay inner-scoped"),
    }
}

#[test]
fn queue_runner_books_children_into_the_scope() {
    let mut b = MemoryBackend::new();
    let mut actions = Vec::new();
    let s = b.create_new_scope();
    let t = new_native_task(&mut b, 61);
    task_engine::scope_ops::run_add_to_scope_queue(
        vec![(vec![t], false)],
        1,
        s,
        &mut b,
        &mut actions,
    );
    let scopes = b.tasks[t].scopes.to_vec();
    assert!(scopes.contains(&s));
    assert_eq!(b.scopes[s].tasks, 1);
    assert_eq!(b.scopes[s].unfinished_tasks, 1);
}
