//! The engine's aggregate laws, stated over the mathematical model.
//!
//! Each lemma here is part of the library's statement of intent: what the
//! per-operation contracts in the other modules add up to.

use vstd::prelude::*;
use vstd::set_lib::{lemma_int_range, lemma_len_subset, lemma_set_subset_finite, set_int_range};
use crate::backend::{unfinished_count_exact, unfinished_members, MemoryBackend};
use crate::handle::{CellId, ScopeId, TaskId, ValueHandle};
use crate::scope::{
    lemma_list_add_remove_noop, scope_entries_wf, spec_dec, spec_inc, spec_list_add,
    spec_list_remove,
};
use crate::task::{Task, TaskStateType};

verus! {

/// What one task adds to a scope's unfinished-task counter: one if it is a
/// member that is not Done, and zero otherwise.
pub open spec fn unfinished_contribution(t: Task, s: ScopeId) -> int {
    if t.scopes.spec_scopes().contains(s) && t.state_type != TaskStateType::Done {
        1
    } else {
        0
    }
}

/// A Done task contributes nothing to the unfinished-task counter of any
/// scope, containing or not.  Together with the contracts of
/// `execution_completed` (each containing scope's counter drops when a task
/// becomes Done) and `make_dirty` (each containing scope's counter rises
/// when a Done task is invalidated), this is the unfinished-task accounting
/// rule.
pub proof fn lemma_done_task_contributes_nothing(t: Task, s: ScopeId)
    requires
        t.state_type == TaskStateType::Done,
    ensures
        unfinished_contribution(t, s) == 0,
{
}

/// A scope whose unfinished-task counter agrees with its membership and
/// stands at zero has only Done members: nothing under it is still running
/// or waiting to run.
pub proof fn lemma_settled_scope_has_only_done_members(b: MemoryBackend, s: ScopeId)
    requires
        s < b.spec_num_scopes(),
        unfinished_count_exact(b, s),
        b.spec_scope(s).unfinished_tasks == 0,
    ensures
        forall|t: int|
            0 <= t < b.spec_num_tasks() && (#[trigger] b.tasks@[t]).scopes.spec_scopes().contains(
                s,
            ) ==> b.tasks@[t].state_type == TaskStateType::Done,
{
    let members = unfinished_members(b, s);
    let range = set_int_range(0, b.spec_num_tasks());
    lemma_int_range(0, b.spec_num_tasks());
    assert(members.subset_of(range));
    lemma_set_subset_finite(range, members);
    assert forall|t: int|
        0 <= t < b.spec_num_tasks() && (#[trigger] b.tasks@[t]).scopes.spec_scopes().contains(
            s,
        ) implies b.tasks@[t].state_type == TaskStateType::Done by {
        if b.tasks@[t].state_type != TaskStateType::Done {
            assert(members.contains(t));
            let single = Set::<int>::empty().insert(t);
            assert(single.subset_of(members));
            lemma_len_subset(single, members);
        }
    }
}

/// Adding a task to a scope and then removing it again is a no-op on the
/// scope bookkeeping: the counted membership returns to exactly what it
/// was, and the member and unfinished counters return to their old values.
pub proof fn lemma_scope_add_then_remove_is_noop(
    entries: Seq<(ScopeId, u32)>,
    id: ScopeId,
    tasks: u32,
    unfinished: u32,
)
    requires
        scope_entries_wf(entries),
        crate::scope::scope_count(entries, id) < u32::MAX,
        tasks < u32::MAX,
        unfinished < u32::MAX,
    ensures
        spec_list_remove(spec_list_add(entries, id), id) == entries,
        spec_dec(spec_inc(tasks)) == tasks,
        spec_dec(spec_inc(unfinished)) == unfinished,
{
    lemma_list_add_remove_noop(entries, id);
}

/// A scope that no task is a member of and whose counter is zero counts
/// exactly: this is how every scope starts.
pub proof fn lemma_fresh_scope_counts_exactly(b: MemoryBackend, s: ScopeId)
    requires
        s < b.spec_num_scopes(),
        b.spec_scope(s).unfinished_tasks == 0,
        forall|t: int|
            0 <= t < b.spec_num_tasks() ==> !(#[trigger] b.tasks@[t]).scopes.spec_scopes().contains(
                s,
            ),
    ensures
        unfinished_count_exact(b, s),
{
    assert(unfinished_members(b, s) =~= Set::<int>::empty());
}

/// A task completing keeps the counter exact: when a member task moves from
/// non-Done to Done and the scope's counter drops by one — exactly what
/// `execution_completed` does to every containing scope — the counter still
/// equals the number of members that are not Done.
pub proof fn lemma_completion_keeps_count_exact(
    b1: MemoryBackend,
    b2: MemoryBackend,
    id: TaskId,
    s: ScopeId,
)
    requires
        id < b1.spec_num_tasks(),
        s < b1.spec_num_scopes(),
        b2.spec_num_tasks() == b1.spec_num_tasks(),
        b2.spec_num_scopes() == b1.spec_num_scopes(),
        b1.tasks@[id as int].state_type != TaskStateType::Done,
        b2.tasks@[id as int].state_type == TaskStateType::Done,
        b2.tasks@[id as int].scopes == b1.tasks@[id as int].scopes,
        forall|t: int|
            0 <= t < b1.spec_num_tasks() && t != id ==> (#[trigger] b2.tasks@[t]).scopes
                == b1.tasks@[t].scopes && b2.tasks@[t].state_type == b1.tasks@[t].state_type,
        b2.spec_scope(s).unfinished_tasks == (if b1.tasks@[id as int].scopes.spec_scopes().contains(
            s,
        ) {
            spec_dec(b1.spec_scope(s).unfinished_tasks)
        } else {
            b1.spec_scope(s).unfinished_tasks
        }),
        unfinished_count_exact(b1, s),
    ensures
        unfinished_count_exact(b2, s),
{
    let m1 = unfinished_members(b1, s);
    let m2 = unfinished_members(b2, s);
    let range = set_int_range(0, b1.spec_num_tasks());
    lemma_int_range(0, b1.spec_num_tasks());
    assert(m1.subset_of(range));
    lemma_set_subset_finite(range, m1);
    if b1.tasks@[id as int].scopes.spec_scopes().contains(s) {
        assert(m1.contains(id as int));
        assert(m2 =~= m1.remove(id as int));
        assert(m1.remove(id as int).len() == m1.len() - 1);
        assert(m1.len() >= 1) by {
            let single = Set::<int>::empty().insert(id as int);
            assert(single.subset_of(m1));
            lemma_len_subset(single, m1);
        }
    } else {
        assert(m2 =~= m1);
    }
}

/// An invalidation keeps the counter exact: when a member Done task becomes
/// dirty again and the scope's counter rises by one — exactly what
/// `make_dirty` does to every containing scope — the counter still equals
/// the number of members that are not Done.
pub proof fn lemma_invalidation_keeps_count_exact(
    b1: MemoryBackend,
    b2: MemoryBackend,
    id: TaskId,
    s: ScopeId,
)
    requires
        id < b1.spec_num_tasks(),
        s < b1.spec_num_scopes(),
        b2.spec_num_tasks() == b1.spec_num_tasks(),
        b2.spec_num_scopes() == b1.spec_num_scopes(),
        b1.tasks@[id as int].state_type == TaskStateType::Done,
        b2.tasks@[id as int].state_type != TaskStateType::Done,
        b2.tasks@[id as int].scopes == b1.tasks@[id as int].scopes,
        forall|t: int|
            0 <= t < b1.spec_num_tasks() && t != id ==> (#[trigger] b2.tasks@[t]).scopes
                == b1.tasks@[t].scopes && b2.tasks@[t].state_type == b1.tasks@[t].state_type,
        b1.spec_scope(s).unfinished_tasks < u32::MAX,
        b2.spec_scope(s).unfinished_tasks == (if b1.tasks@[id as int].scopes.spec_scopes().contains(
            s,
        ) {
            spec_inc(b1.spec_scope(s).unfinished_tasks)
        } else {
            b1.spec_scope(s).unfinished_tasks
        }),
        unfinished_count_exact(b1, s),
    ensures
        unfinished_count_exact(b2, s),
{
    let m1 = unfinished_members(b1, s);
    let m2 = unfinished_members(b2, s);
    let range = set_int_range(0, b1.spec_num_tasks());
    lemma_int_range(0, b1.spec_num_tasks());
    assert(m1.subset_of(range));
    lemma_set_subset_finite(range, m1);
    if b1.tasks@[id as int].scopes.spec_scopes().contains(s) {
        assert(!m1.contains(id as int));
        assert(m2 =~= m1.insert(id as int));
        assert(m1.insert(id as int).len() == m1.len() + 1);
    } else {
        assert(m2 =~= m1);
    }
}

/// The dependency graph's back-edges agree with its forward edges: a task
/// is a dependent of another task's output exactly when its own dependency
/// set names that output.
pub open spec fn output_edges_consistent(b: MemoryBackend) -> bool {
    forall|a: TaskId, t: TaskId|
        a < b.spec_num_tasks() && t < b.spec_num_tasks() ==> ((
        #[trigger] b.tasks@[t as int]).output.dependent_tasks@.contains(a) <==> (
        #[trigger] b.tasks@[a as int]).dependencies@.contains(ValueHandle::TaskOutput(t)))
}

/// The cell side of the same agreement: a task is a dependent of another
/// task's cell exactly when its own dependency set names that cell.
pub open spec fn cell_edges_consistent(b: MemoryBackend) -> bool {
    forall|a: TaskId, t: TaskId, ci: CellId|
        a < b.spec_num_tasks() && t < b.spec_num_tasks() && ci < b.tasks@[t as int].created_cells@.len() ==> ((#[trigger] b.tasks@[t as int].created_cells@[ci as int]).dependent_tasks@.contains(a) <==> #[trigger] b.tasks@[a as int].dependencies@.contains(
            ValueHandle::TaskCell(t, ci),
        ))
}

/// Clearing a task's dependencies also keeps the cell side of the graph
/// consistent: the forward set is emptied and the task leaves the dependent
/// set of exactly the cells it depended on — the shape `clear_dependencies`
/// guarantees.
pub proof fn lemma_clearing_dependencies_keeps_cell_graph_consistent(
    b1: MemoryBackend,
    b2: MemoryBackend,
    id: TaskId,
)
    requires
        id < b1.spec_num_tasks(),
        b2.spec_num_tasks() == b1.spec_num_tasks(),
        cell_edges_consistent(b1),
        b2.tasks@[id as int].dependencies@ == Set::<ValueHandle>::empty(),
        forall|j: int|
            0 <= j < b1.spec_num_tasks() && j != id ==> (#[trigger] b2.tasks@[j]).dependencies
                == b1.tasks@[j].dependencies,
        forall|j: int|
            0 <= j < b1.spec_num_tasks() ==> (#[trigger] b2.tasks@[j]).created_cells@.len()
                == b1.tasks@[j].created_cells@.len(),
        forall|j: TaskId, ci: CellId|
            j < b1.spec_num_tasks() && ci < b1.tasks@[j as int].created_cells@.len() ==> (
            #[trigger] b2.tasks@[j as int].created_cells@[ci as int]).dependent_tasks@ == (if b1.tasks@[id as int].dependencies@.contains(ValueHandle::TaskCell(j, ci)) {
                b1.tasks@[j as int].created_cells@[ci as int].dependent_tasks@.remove(id)
            } else {
                b1.tasks@[j as int].created_cells@[ci as int].dependent_tasks@
            }),
    ensures
        cell_edges_consistent(b2),
{
    assert forall|a: TaskId, t: TaskId, ci: CellId|
        a < b2.spec_num_tasks() && t < b2.spec_num_tasks() && ci < b2.tasks@[t as int].created_cells@.len() implies ((#[trigger] b2.tasks@[t as int].created_cells@[ci as int]).dependent_tasks@.contains(a) <==> #[trigger] b2.tasks@[a as int].dependencies@.contains(
        ValueHandle::TaskCell(t, ci),
    )) by {
        if a == id {
            assert(!b2.tasks@[a as int].dependencies@.contains(ValueHandle::TaskCell(t, ci)));
            if b1.tasks@[id as int].dependencies@.contains(ValueHandle::TaskCell(t, ci)) {
                assert(!b2.tasks@[t as int].created_cells@[ci as int].dependent_tasks@.contains(
                    a,
                ));
            } else {
                assert(!b1.tasks@[t as int].created_cells@[ci as int].dependent_tasks@.contains(
                    a,
                ));
            }
        } else {
            assert(b2.tasks@[a as int].dependencies == b1.tasks@[a as int].dependencies);
            assert(b2.tasks@[t as int].created_cells@[ci as int].dependent_tasks@.contains(a)
                == b1.tasks@[t as int].created_cells@[ci as int].dependent_tasks@.contains(a));
        }
    }
}

/// Booking a task into or out of one scope keeps the counter exact: when
/// the task's membership of the scope changes and the counter moves by one
/// for a non-Done task — exactly what the shallow scope add and remove do —
/// the counter still equals the number of members that are not Done.
pub proof fn lemma_membership_change_keeps_count_exact(
    b1: MemoryBackend,
    b2: MemoryBackend,
    id: TaskId,
    s: ScopeId,
)
    requires
        id < b1.spec_num_tasks(),
        s < b1.spec_num_scopes(),
        b2.spec_num_tasks() == b1.spec_num_tasks(),
        b2.spec_num_scopes() == b1.spec_num_scopes(),
        forall|t: int|
            0 <= t < b1.spec_num_tasks() && t != id ==> (#[trigger] b2.tasks@[t]).scopes
                == b1.tasks@[t].scopes && b2.tasks@[t].state_type == b1.tasks@[t].state_type,
        (b2.tasks@[id as int].state_type != TaskStateType::Done) == (b1.tasks@[
            id as int
        ].state_type != TaskStateType::Done),
        b2.spec_scope(s).unfinished_tasks == (if b2.tasks@[id as int].scopes.spec_scopes(
        ).contains(s) && !b1.tasks@[id as int].scopes.spec_scopes().contains(s) && b1.tasks@[
            id as int
        ].state_type != TaskStateType::Done {
            spec_inc(b1.spec_scope(s).unfinished_tasks)
        } else if !b2.tasks@[id as int].scopes.spec_scopes().contains(s) && b1.tasks@[
            id as int
        ].scopes.spec_scopes().contains(s) && b1.tasks@[id as int].state_type
            != TaskStateType::Done {
            spec_dec(b1.spec_scope(s).unfinished_tasks)
        } else {
            b1.spec_scope(s).unfinished_tasks
        }),
        (b2.tasks@[id as int].scopes.spec_scopes().contains(s) && !b1.tasks@[
            id as int
        ].scopes.spec_scopes().contains(s) && b1.tasks@[id as int].state_type
            != TaskStateType::Done) ==> b1.spec_scope(s).unfinished_tasks < u32::MAX,
        unfinished_count_exact(b1, s),
    ensures
        unfinished_count_exact(b2, s),
{
    let m1 = unfinished_members(b1, s);
    let m2 = unfinished_members(b2, s);
    let range = set_int_range(0, b1.spec_num_tasks());
    lemma_int_range(0, b1.spec_num_tasks());
    assert(m1.subset_of(range));
    lemma_set_subset_finite(range, m1);
    let c1 = b1.tasks@[id as int].scopes.spec_scopes().contains(s);
    let c2 = b2.tasks@[id as int].scopes.spec_scopes().contains(s);
    let live = b1.tasks@[id as int].state_type != TaskStateType::Done;
    if c2 && !c1 && live {
        assert(!m1.contains(id as int));
        assert(m2 =~= m1.insert(id as int));
        assert(m1.insert(id as int).len() == m1.len() + 1);
    } else if !c2 && c1 && live {
        assert(m1.contains(id as int));
        assert(m2 =~= m1.remove(id as int));
        assert(m1.remove(id as int).len() == m1.len() - 1);
        assert(m1.len() >= 1) by {
            let single = Set::<int>::empty().insert(id as int);
            assert(single.subset_of(m1));
            lemma_len_subset(single, m1);
        }
    } else {
        assert(m2 =~= m1);
    }
}

/// Clearing a task's dependencies — emptying its forward set and dropping
/// it from the dependent set of exactly the outputs it depended on, the
/// shape `clear_dependencies` guarantees — keeps the dependency graph
/// consistent.
pub proof fn lemma_clearing_dependencies_keeps_graph_consistent(
    b1: MemoryBackend,
    b2: MemoryBackend,
    id: TaskId,
)
    requires
        id < b1.spec_num_tasks(),
        b2.spec_num_tasks() == b1.spec_num_tasks(),
        output_edges_consistent(b1),
        b2.tasks@[id as int].dependencies@ == Set::<ValueHandle>::empty(),
        forall|j: int|
            0 <= j < b1.spec_num_tasks() && j != id ==> (#[trigger] b2.tasks@[j]).dependencies
                == b1.tasks@[j].dependencies,
        forall|j: TaskId|
            j < b1.spec_num_tasks() ==> (#[trigger] b2.tasks@[j as int]).output.dependent_tasks@
                == (if b1.tasks@[id as int].dependencies@.contains(ValueHandle::TaskOutput(j)) {
                b1.tasks@[j as int].output.dependent_tasks@.remove(id)
            } else {
                b1.tasks@[j as int].output.dependent_tasks@
            }),
    ensures
        output_edges_consistent(b2),
{
    assert forall|a: TaskId, t: TaskId|
        a < b2.spec_num_tasks() && t < b2.spec_num_tasks() implies ((
    #[trigger] b2.tasks@[t as int]).output.dependent_tasks@.contains(a) <==> (
    #[trigger] b2.tasks@[a as int]).dependencies@.contains(ValueHandle::TaskOutput(t))) by {
        if a == id {
            assert(!b2.tasks@[a as int].dependencies@.contains(ValueHandle::TaskOutput(t)));
            if b1.tasks@[id as int].dependencies@.contains(ValueHandle::TaskOutput(t)) {
                assert(!b2.tasks@[t as int].output.dependent_tasks@.contains(a));
            } else {
                assert(!b1.tasks@[t as int].output.dependent_tasks@.contains(a));
            }
        } else {
            assert(b2.tasks@[a as int].dependencies == b1.tasks@[a as int].dependencies);
            assert(b2.tasks@[t as int].output.dependent_tasks@.contains(a) == b1.tasks@[
                t as int
            ].output.dependent_tasks@.contains(a));
        }
    }
}

} // verus!
