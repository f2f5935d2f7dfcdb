//! Tasks: the incremental unit of computation.
//!
//! A task owns a body descriptor, its lifecycle state, the children it
//! connected during its last execution, its output and cells, its scope
//! membership, and the dependencies recorded by its last execution.  The
//! lifecycle operations that touch other tasks or scopes live on the backend.

use vstd::prelude::*;
use crate::auto_set::AutoSet;
use crate::cell::Cell;
use crate::handle::{CellId, FunctionId, ScopeId, TaskId, TaskInput, TraitTypeId, ValueHandle};
use crate::output::Output;
use crate::scope::ScopeList;

verus! {

/// The kind of body a task runs.
#[derive(Clone, Copy, PartialEq, Eq, Structural, Debug)]
pub enum TaskType {
    /// A root task that tracks dependencies and re-executes when they change.
    Root,
    /// A single root task execution; does not track dependencies and runs at
    /// most once.
    Once,
    /// A memoized native function bound to its inputs.
    Native(FunctionId),
    /// Resolves its arguments, then delegates to a cached native task.
    ResolveNative(FunctionId),
    /// Resolves its first argument, looks the method up on the trait, then
    /// delegates.  The method name is carried as a registry token.
    ResolveTrait(TraitTypeId, usize),
}

/// The lifecycle state of a task.
#[derive(Clone, Copy, PartialEq, Eq, Structural, Debug)]
pub enum TaskStateType {
    /// Ready; on invalidation moves to Dirty or Scheduled depending on
    /// whether a containing scope is active.
    Done,
    /// Execution is invalid, but not yet scheduled.
    Dirty,
    /// Execution is invalid and scheduled.
    Scheduled,
    /// Execution is happening.
    InProgress,
    /// Execution is happening but was invalidated while running; its result
    /// will be discarded.
    InProgressDirty,
}

/// A task's scope membership: exactly one root scope, or a counted multiset
/// of inner scopes.
pub enum TaskScopes {
    Root(ScopeId),
    Inner(ScopeList),
}

impl TaskScopes {
    pub open spec fn wf(&self) -> bool {
        match self {
            TaskScopes::Root(_) => true,
            TaskScopes::Inner(list) => list.wf(),
        }
    }

    pub open spec fn spec_is_root(&self) -> bool {
        self matches TaskScopes::Root(_)
    }

    pub open spec fn spec_is_inner(&self) -> bool {
        self matches TaskScopes::Inner(_)
    }

    /// The distinct scope ids this membership names.
    pub open spec fn spec_scopes(&self) -> Seq<ScopeId> {
        match self {
            TaskScopes::Root(r) => seq![*r],
            TaskScopes::Inner(list) => list.entries().map_values(|p: (ScopeId, u32)| p.0),
        }
    }

    pub fn is_root(&self) -> (r: bool)
        ensures
            r == self.spec_is_root(),
    {
        match self {
            TaskScopes::Root(_) => true,
            TaskScopes::Inner(_) => false,
        }
    }

    /// A well-formed membership names each scope once.
    pub proof fn lemma_scopes_distinct(&self)
        requires
            self.wf(),
        ensures
            self.spec_scopes().no_duplicates(),
    {
        match self {
            TaskScopes::Root(_) => {}
            TaskScopes::Inner(list) => {
                let m = list.entries().map_values(|p: (ScopeId, u32)| p.0);
                assert forall|i: int, j: int|
                    0 <= i < m.len() && 0 <= j < m.len() && i != j implies m[i] != m[j] by {
                    assert(m[i] == list.entries()[i].0);
                    assert(m[j] == list.entries()[j].0);
                }
            }
        }
    }

    /// The distinct scope ids, copied out.
    pub fn to_vec(&self) -> (r: Vec<ScopeId>)
        ensures
            r@ == self.spec_scopes(),
    {
        match self {
            TaskScopes::Root(root) => {
                let mut v: Vec<ScopeId> = Vec::new();
                v.push(*root);
                proof {
                    assert(v@ =~= self.spec_scopes());
                }
                v
            }
            TaskScopes::Inner(list) => list.to_scope_vec(),
        }
    }
}

/// A task's scope membership is exclusive by construction: a root-scoped
/// task is in no inner bag, and an inner-scoped task has no root scope.
pub proof fn lemma_scope_membership_exclusive(s: TaskScopes)
    ensures
        s.spec_is_root() ==> !s.spec_is_inner(),
        s.spec_is_inner() ==> !s.spec_is_root(),
        s.spec_is_root() || s.spec_is_inner(),
{
}

/// Mappings from data-type or user key to cell index, so that re-executions
/// place new values into the same cells.
pub struct CellMappings {
    /// For each data type: the next fresh position and the cells handed out.
    pub by_type: Vec<(usize, (usize, Vec<CellId>))>,
    /// For each user key: the cell handed out.
    pub by_key: Vec<(usize, CellId)>,
}

impl CellMappings {
    pub fn new() -> (r: Self)
        ensures
            r.by_type@ == Seq::<(usize, (usize, Vec<CellId>))>::empty(),
            r.by_key@ == Seq::<(usize, CellId)>::empty(),
    {
        let r = CellMappings { by_type: Vec::new(), by_key: Vec::new() };
        proof {
            assert(r.by_type@ =~= Seq::<(usize, (usize, Vec<CellId>))>::empty());
            assert(r.by_key@ =~= Seq::<(usize, CellId)>::empty());
        }
        r
    }
}

/// How the runtime must execute a task, derived from its body kind.
#[derive(Clone, Copy, PartialEq, Eq, Structural, Debug)]
pub enum ExecutionPlan {
    /// Run the stored root body.
    RunRoot,
    /// Take and run the stored one-shot body; it exists only once.
    RunOnce,
    /// Run the bound native function.
    RunNative(FunctionId),
    /// Resolve the inputs, then call the native function through the cache.
    RunResolveNative(FunctionId),
    /// Resolve the first input, look the method up, then delegate.
    RunResolveTrait(TraitTypeId, usize),
}

/// Kind of reference reported by [`Task::get_stats_references`].
#[derive(Clone, Copy, PartialEq, Eq, Structural, Debug)]
pub enum ReferenceType {
    Child,
    Dependency,
    Input,
}

/// Statistics descriptor for a task body.
#[derive(Clone, Copy, PartialEq, Eq, Structural, Debug)]
pub enum StatsTaskType {
    Root(TaskId),
    Once(TaskId),
    Native(FunctionId),
    ResolveNative(FunctionId),
    ResolveTrait(TraitTypeId, usize),
}

/// A task: an instantiation of a function with some arguments, plus all of
/// its lifecycle state.
pub struct Task {
    /// The task's own id: its index in the backend's task table.
    pub id: TaskId,
    /// The arguments, used for cache-key equality.
    pub inputs: Vec<TaskInput>,
    /// The kind of body.
    pub ty: TaskType,
    /// Root scope or counted inner scopes.
    pub scopes: TaskScopes,
    /// Lifecycle state.
    pub state_type: TaskStateType,
    /// Tasks connected as children during the most recent execution.
    pub children: AutoSet<TaskId>,
    /// The primary result slot.
    pub output: Output,
    /// The cells the task's executions have created.
    pub created_cells: Vec<Cell>,
    /// How many executions have started.
    pub executions: u32,
    /// Total execution time, in nanoseconds.
    pub total_duration: u64,
    /// Value handles read during the most recent completed execution.
    pub dependencies: AutoSet<ValueHandle>,
    /// Where re-executions should place new cell values.
    pub cell_mappings: CellMappings,
}

impl Task {
    pub open spec fn wf(&self) -> bool {
        &&& self.scopes.wf()
        &&& self.children.wf()
        &&& self.output.wf()
        &&& self.dependencies.wf()
        &&& forall|i: int| 0 <= i < self.created_cells@.len() ==> self.created_cells@[i].wf()
    }

    /// A freshly created cached task: dirty, member of no scope yet.
    fn new_cached(id: TaskId, inputs: Vec<TaskInput>, ty: TaskType) -> (r: Self)
        ensures
            r.wf(),
            r.id == id,
            r.inputs == inputs,
            r.ty == ty,
            r.state_type == TaskStateType::Dirty,
            r.scopes matches TaskScopes::Inner(list) && list.entries().len() == 0,
            r.children@ == Set::<TaskId>::empty(),
            r.dependencies@ == Set::<ValueHandle>::empty(),
            r.output.content == crate::output::OutputContent::Empty,
            r.executions == 0,
            r.created_cells@.len() == 0,
    {
        Task {
            id,
            inputs,
            ty,
            scopes: TaskScopes::Inner(ScopeList::new()),
            state_type: TaskStateType::Dirty,
            children: AutoSet::new(),
            output: Output::new(),
            created_cells: Vec::new(),
            executions: 0,
            total_duration: 0,
            dependencies: AutoSet::new(),
            cell_mappings: CellMappings::new(),
        }
    }

    /// A memoized native-function task.
    pub fn new_native(id: TaskId, inputs: Vec<TaskInput>, native_fn: FunctionId) -> (r: Self)
        ensures
            r.wf(),
            r.id == id,
            r.inputs == inputs,
            r.ty == TaskType::Native(native_fn),
            r.state_type == TaskStateType::Dirty,
            r.scopes matches TaskScopes::Inner(list) && list.entries().len() == 0,
            r.children@ == Set::<TaskId>::empty(),
            r.dependencies@ == Set::<ValueHandle>::empty(),
            r.output.content == crate::output::OutputContent::Empty,
            r.executions == 0,
            r.created_cells@.len() == 0,
    {
        Self::new_cached(id, inputs, TaskType::Native(native_fn))
    }

    /// A task that resolves arguments, then delegates to a native task.
    pub fn new_resolve_native(id: TaskId, inputs: Vec<TaskInput>, native_fn: FunctionId) -> (r:
        Self)
        ensures
            r.wf(),
            r.id == id,
            r.inputs == inputs,
            r.ty == TaskType::ResolveNative(native_fn),
            r.state_type == TaskStateType::Dirty,
            r.scopes matches TaskScopes::Inner(list) && list.entries().len() == 0,
            r.children@ == Set::<TaskId>::empty(),
            r.dependencies@ == Set::<ValueHandle>::empty(),
            r.output.content == crate::output::OutputContent::Empty,
            r.executions == 0,
            r.created_cells@.len() == 0,
    {
        Self::new_cached(id, inputs, TaskType::ResolveNative(native_fn))
    }

    /// A task that resolves a trait method, then delegates.
    pub fn new_resolve_trait(
        id: TaskId,
        trait_type: TraitTypeId,
        trait_fn_name: usize,
        inputs: Vec<TaskInput>,
    ) -> (r: Self)
        ensures
            r.wf(),
            r.id == id,
            r.inputs == inputs,
            r.ty == TaskType::ResolveTrait(trait_type, trait_fn_name),
            r.state_type == TaskStateType::Dirty,
            r.scopes matches TaskScopes::Inner(list) && list.entries().len() == 0,
            r.children@ == Set::<TaskId>::empty(),
            r.dependencies@ == Set::<ValueHandle>::empty(),
            r.output.content == crate::output::OutputContent::Empty,
            r.executions == 0,
            r.created_cells@.len() == 0,
    {
        Self::new_cached(id, inputs, TaskType::ResolveTrait(trait_type, trait_fn_name))
    }

    /// A root task, already scheduled inside its own root scope.
    pub fn new_root(id: TaskId, scope: ScopeId) -> (r: Self)
        ensures
            r.wf(),
            r.id == id,
            r.ty == TaskType::Root,
            r.state_type == TaskStateType::Scheduled,
            r.scopes == TaskScopes::Root(scope),
            r.children@ == Set::<TaskId>::empty(),
            r.dependencies@ == Set::<ValueHandle>::empty(),
            r.executions == 0,
    {
        Task {
            scopes: TaskScopes::Root(scope),
            state_type: TaskStateType::Scheduled,
            ..Self::new_cached(id, Vec::new(), TaskType::Root)
        }
    }

    /// A one-shot task, already scheduled inside its own root scope.
    pub fn new_once(id: TaskId, scope: ScopeId) -> (r: Self)
        ensures
            r.wf(),
            r.id == id,
            r.ty == TaskType::Once,
            r.state_type == TaskStateType::Scheduled,
            r.scopes == TaskScopes::Root(scope),
            r.children@ == Set::<TaskId>::empty(),
            r.dependencies@ == Set::<ValueHandle>::empty(),
            r.executions == 0,
    {
        Task {
            scopes: TaskScopes::Root(scope),
            state_type: TaskStateType::Scheduled,
            ..Self::new_cached(id, Vec::new(), TaskType::Once)
        }
    }

    /// How the runtime must execute the task.
    pub fn execute(&self) -> (r: ExecutionPlan)
        ensures
            r == (match self.ty {
                TaskType::Root => ExecutionPlan::RunRoot,
                TaskType::Once => ExecutionPlan::RunOnce,
                TaskType::Native(f) => ExecutionPlan::RunNative(f),
                TaskType::ResolveNative(f) => ExecutionPlan::RunResolveNative(f),
                TaskType::ResolveTrait(t, n) => ExecutionPlan::RunResolveTrait(t, n),
            }),
    {
        match self.ty {
            TaskType::Root => ExecutionPlan::RunRoot,
            TaskType::Once => ExecutionPlan::RunOnce,
            TaskType::Native(f) => ExecutionPlan::RunNative(f),
            TaskType::ResolveNative(f) => ExecutionPlan::RunResolveNative(f),
            TaskType::ResolveTrait(t, n) => ExecutionPlan::RunResolveTrait(t, n),
        }
    }

    /// Moves the cell mappings out for the next execution, resetting each
    /// per-type fresh position to zero; the task keeps empty mappings.
    pub fn take_cell_mappings(&mut self) -> (r: CellMappings)
        ensures
            final(self).cell_mappings.by_type@.len() == 0,
            final(self).cell_mappings.by_key@.len() == 0,
            *final(self) == (Task { cell_mappings: final(self).cell_mappings, ..*old(self) }),
            r.by_key@ == old(self).cell_mappings.by_key@,
            r.by_type@.len() == old(self).cell_mappings.by_type@.len(),
            forall|i: int|
                0 <= i < r.by_type@.len() ==> #[trigger] r.by_type@[i].0 == old(
                    self,
                ).cell_mappings.by_type@[i].0,
            forall|i: int| 0 <= i < r.by_type@.len() ==> #[trigger] r.by_type@[i].1.0 == 0,
            forall|i: int|
                0 <= i < r.by_type@.len() ==> #[trigger] r.by_type@[i].1.1 == old(
                    self,
                ).cell_mappings.by_type@[i].1.1,
    {
        let mut taken = CellMappings::new();
        core::mem::swap(&mut taken, &mut self.cell_mappings);
        let mut reset: Vec<(usize, (usize, Vec<CellId>))> = Vec::new();
        let ghost src = taken.by_type@;
        while taken.by_type.len() != 0
            invariant
                src == old(self).cell_mappings.by_type@,
                taken.by_key@ == old(self).cell_mappings.by_key@,
                self.cell_mappings.by_type@.len() == 0,
                self.cell_mappings.by_key@.len() == 0,
                *self == (Task { cell_mappings: self.cell_mappings, ..*old(self) }),
                reset@.len() + taken.by_type@.len() == src.len(),
                taken.by_type@ == src.skip(reset@.len() as int),
                forall|i: int| 0 <= i < reset@.len() ==> #[trigger] reset@[i].0 == src[i].0,
                forall|i: int| 0 <= i < reset@.len() ==> #[trigger] reset@[i].1.0 == 0,
                forall|i: int| 0 <= i < reset@.len() ==> #[trigger] reset@[i].1.1 == src[i].1.1,
            decreases taken.by_type@.len(),
        {
            let ghost k = reset@.len() as int;
            let entry = taken.by_type.remove(0);
            reset.push((entry.0, (0, entry.1.1)));
            proof {
                assert(taken.by_type@ =~= src.skip(k + 1));
            }
        }
        CellMappings { by_type: reset, by_key: taken.by_key }
    }

    /// Creates a fresh cell and returns its index.
    pub fn get_fresh_cell(&mut self) -> (r: CellId)
        requires
            old(self).wf(),
        ensures
            final(self).wf(),
            r == old(self).created_cells@.len(),
            final(self).created_cells@.len() == old(self).created_cells@.len() + 1,
            final(self).created_cells@ == old(self).created_cells@.push(
                final(self).created_cells@.last(),
            ),
            final(self).created_cells@.last().content == Option::<
                crate::handle::ContentId,
            >::None,
            final(self).created_cells@.last().updates == 0,
            final(self).created_cells@.last().dependent_tasks@ == Set::<
                crate::handle::TaskId,
            >::empty(),
            *final(self) == (Task { created_cells: final(self).created_cells, ..*old(self) }),
    {
        let index = self.created_cells.len();
        self.created_cells.push(Cell::new());
        index
    }

    /// Caps the executions counter at one, for tests that only care whether
    /// a task ran at all.
    pub fn reset_executions(&mut self)
        ensures
            final(self).executions == (if old(self).executions > 1 {
                1u32
            } else {
                old(self).executions
            }),
            *final(self) == (Task { executions: final(self).executions, ..*old(self) }),
    {
        if self.executions > 1 {
            self.executions = 1;
        }
    }

    /// Whether the task still has work pending.
    pub fn is_pending(&self) -> (r: bool)
        ensures
            r == (self.state_type != TaskStateType::Done),
    {
        match self.state_type {
            TaskStateType::Done => false,
            _ => true,
        }
    }

    /// Total duration, executions, whether root-scoped, and the number of
    /// containing scopes.
    pub fn get_stats_info(&self) -> (r: (u64, u32, bool, usize))
        ensures
            r.0 == self.total_duration,
            r.1 == self.executions,
            r.2 == self.scopes.spec_is_root(),
            r.3 == self.scopes.spec_scopes().len(),
    {
        match &self.scopes {
            TaskScopes::Root(_) => (self.total_duration, self.executions, true, 1),
            TaskScopes::Inner(list) => (
                self.total_duration,
                self.executions,
                false,
                list.len(),
            ),
        }
    }

    /// The statistics descriptor of the task's body.
    pub fn get_stats_type(&self) -> (r: StatsTaskType)
        ensures
            r == (match self.ty {
                TaskType::Root => StatsTaskType::Root(self.id),
                TaskType::Once => StatsTaskType::Once(self.id),
                TaskType::Native(f) => StatsTaskType::Native(f),
                TaskType::ResolveNative(f) => StatsTaskType::ResolveNative(f),
                TaskType::ResolveTrait(t, n) => StatsTaskType::ResolveTrait(t, n),
            }),
    {
        match self.ty {
            TaskType::Root => StatsTaskType::Root(self.id),
            TaskType::Once => StatsTaskType::Once(self.id),
            TaskType::Native(f) => StatsTaskType::Native(f),
            TaskType::ResolveNative(f) => StatsTaskType::ResolveNative(f),
            TaskType::ResolveTrait(t, n) => StatsTaskType::ResolveTrait(t, n),
        }
    }

    /// Every reference the task holds: its children, the tasks behind its
    /// dependencies, and the tasks named by its inputs.
    pub fn get_stats_references(&self) -> (r: Vec<(ReferenceType, TaskId)>)
        ensures
            r@ == self.children.elems().map_values(
                |c: TaskId| (ReferenceType::Child, c),
            ) + self.dependencies.elems().map_values(
                |d: ValueHandle| (ReferenceType::Dependency, d.spec_task_id()),
            ) + self.inputs@.filter(|i: TaskInput| i.spec_get_task_id() is Some).map_values(
                |i: TaskInput| (ReferenceType::Input, i.spec_get_task_id().unwrap()),
            ),
    {
        let ghost child_part = self.children.elems().map_values(
            |c: TaskId| (ReferenceType::Child, c),
        );
        let ghost dep_part = self.dependencies.elems().map_values(
            |d: ValueHandle| (ReferenceType::Dependency, d.spec_task_id()),
        );
        let ghost input_pred = |i: TaskInput| i.spec_get_task_id() is Some;
        let ghost input_map = |i: TaskInput| (ReferenceType::Input, i.spec_get_task_id().unwrap());
        let mut refs: Vec<(ReferenceType, TaskId)> = Vec::new();
        let children = self.children.to_vec();
        let mut i: usize = 0;
        while i < children.len()
            invariant
                i <= children.len(),
                children@ == self.children.elems(),
                child_part == self.children.elems().map_values(
                    |c: TaskId| (ReferenceType::Child, c),
                ),
                refs@ == child_part.take(i as int),
            decreases children.len() - i,
        {
            refs.push((ReferenceType::Child, children[i]));
            proof {
                assert(refs@ =~= child_part.take(i + 1 as int));
            }
            i += 1;
        }
        proof {
            assert(refs@ =~= child_part);
        }
        let deps = self.dependencies.to_vec();
        let mut j: usize = 0;
        while j < deps.len()
            invariant
                j <= deps.len(),
                deps@ == self.dependencies.elems(),
                dep_part == self.dependencies.elems().map_values(
                    |d: ValueHandle| (ReferenceType::Dependency, d.spec_task_id()),
                ),
                refs@ == child_part + dep_part.take(j as int),
            decreases deps.len() - j,
        {
            refs.push((ReferenceType::Dependency, deps[j].get_task_id()));
            proof {
                assert(refs@ =~= child_part + dep_part.take(j + 1 as int));
            }
            j += 1;
        }
        proof {
            assert(refs@ =~= child_part + dep_part);
        }
        let mut k: usize = 0;
        while k < self.inputs.len()
            invariant
                k <= self.inputs@.len(),
                refs@ == child_part + dep_part + self.inputs@.take(k as int).filter(
                    input_pred,
                ).map_values(input_map),
                input_pred == (|i: TaskInput| i.spec_get_task_id() is Some),
                input_map == (|i: TaskInput| (
                    ReferenceType::Input,
                    i.spec_get_task_id().unwrap(),
                )),
            decreases self.inputs@.len() - k,
        {
            let ghost prefix = self.inputs@.take(k as int);
            proof {
                assert(self.inputs@.take(k + 1 as int) =~= prefix.push(self.inputs@[k as int]));
                prefix.lemma_filter_push(self.inputs@[k as int], input_pred);
            }
            match self.inputs[k].get_task_id() {
                Some(task) => {
                    refs.push((ReferenceType::Input, task));
                    proof {
                        assert(prefix.push(self.inputs@[k as int]).filter(input_pred)
                            =~= prefix.filter(input_pred).push(self.inputs@[k as int]));
                        assert(refs@ =~= child_part + dep_part + self.inputs@.take(
                            k + 1 as int,
                        ).filter(input_pred).map_values(input_map));
                    }
                }
                None => {
                    proof {
                        assert(refs@ =~= child_part + dep_part + self.inputs@.take(
                            k + 1 as int,
                        ).filter(input_pred).map_values(input_map));
                    }
                }
            }
            k += 1;
        }
        proof {
            assert(self.inputs@.take(self.inputs@.len() as int) =~= self.inputs@);
        }
        refs
    }
}

} // verus!
