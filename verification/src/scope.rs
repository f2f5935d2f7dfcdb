//! Scopes: aggregation nodes over subgraphs of tasks.
//!
//! A scope tracks how many external observers hold it (`active_count`), its
//! child scopes with multiplicities, the dirty member tasks to wake when
//! observation starts, and two counters over its member tasks.  A task
//! belongs either to a single root scope or to a counted multiset of inner
//! scopes, kept here as a [`ScopeList`].

use vstd::prelude::*;
use crate::auto_set::AutoSet;
use crate::handle::{ScopeId, TaskId};

verus! {

/// Number of scopes with the given id in an entry sequence, weighted by the
/// stored multiplicities.
pub open spec fn scope_count(s: Seq<(ScopeId, u32)>, id: ScopeId) -> int
    decreases s.len(),
{
    if s.len() == 0 {
        0
    } else {
        (if s.last().0 == id {
            s.last().1 as int
        } else {
            0
        }) + scope_count(s.drop_last(), id)
    }
}

/// A counter bumped by one, saturating at the machine limit.
pub open spec fn spec_inc(c: u32) -> u32 {
    if c < u32::MAX {
        (c + 1) as u32
    } else {
        c
    }
}

/// A counter lowered by one, stopping at zero.
pub open spec fn spec_dec(c: u32) -> u32 {
    if c > 0 {
        (c - 1) as u32
    } else {
        0
    }
}

/// Whether an entry for `id` exists.
pub open spec fn spec_has_scope(s: Seq<(ScopeId, u32)>, id: ScopeId) -> bool {
    exists|j: int| 0 <= j < s.len() && s[j].0 == id
}

/// The index of the entry for `id` (unique in a well-formed list).
pub open spec fn spec_scope_index(s: Seq<(ScopeId, u32)>, id: ScopeId) -> int {
    choose|j: int| 0 <= j < s.len() && s[j].0 == id
}

/// The entries after adding one occurrence of `id`.
pub open spec fn spec_list_add(s: Seq<(ScopeId, u32)>, id: ScopeId) -> Seq<(ScopeId, u32)> {
    if spec_has_scope(s, id) {
        s.update(spec_scope_index(s, id), (id, (s[spec_scope_index(s, id)].1 + 1) as u32))
    } else {
        s.push((id, 1))
    }
}

/// The entries after removing one occurrence of `id`.
pub open spec fn spec_list_remove(s: Seq<(ScopeId, u32)>, id: ScopeId) -> Seq<(ScopeId, u32)> {
    if !spec_has_scope(s, id) {
        s
    } else if s[spec_scope_index(s, id)].1 > 1 {
        s.update(spec_scope_index(s, id), (id, (s[spec_scope_index(s, id)].1 - 1) as u32))
    } else {
        s.remove(spec_scope_index(s, id))
    }
}

/// A well-formed entry sequence: ids are distinct, counts are positive.
pub open spec fn scope_entries_wf(s: Seq<(ScopeId, u32)>) -> bool {
    &&& forall|i: int, j: int|
        0 <= i < s.len() && 0 <= j < s.len() && i != j ==> s[i].0 != s[j].0
    &&& forall|i: int| 0 <= i < s.len() ==> s[i].1 >= 1
}

/// Result of removing one occurrence of a scope from a [`ScopeList`].
#[derive(Clone, Copy, PartialEq, Eq, Structural, Debug)]
pub enum RemoveResult {
    /// The scope was not in the list at all.
    NoEntry,
    /// The count was decreased and stays positive.
    Decreased,
    /// The last occurrence was removed; the scope left the list.
    Removed,
}

/// A counted multiset of scope ids: each distinct scope appears once with a
/// positive multiplicity.
pub struct ScopeList {
    entries: Vec<(ScopeId, u32)>,
}

impl ScopeList {
    /// The entry sequence in insertion order.
    pub closed spec fn entries(&self) -> Seq<(ScopeId, u32)> {
        self.entries@
    }

    pub open spec fn wf(&self) -> bool {
        scope_entries_wf(self.entries())
    }

    /// The multiplicity of `id`.
    pub open spec fn count_of(&self, id: ScopeId) -> int {
        scope_count(self.entries(), id)
    }

    /// Whether `id` is in the list.
    pub open spec fn has(&self, id: ScopeId) -> bool {
        spec_has_scope(self.entries(), id)
    }

    /// The set of distinct scope ids.
    pub open spec fn scope_set(&self) -> Set<ScopeId> {
        self.entries().map_values(|p: (ScopeId, u32)| p.0).to_set()
    }

    pub fn new() -> (r: Self)
        ensures
            r.wf(),
            r.entries() == Seq::<(ScopeId, u32)>::empty(),
    {
        let r = ScopeList { entries: Vec::new() };
        proof {
            assert(r.entries() =~= Seq::<(ScopeId, u32)>::empty());
        }
        r
    }

    fn position_of(&self, id: ScopeId) -> (r: Option<usize>)
        ensures
            match r {
                Some(i) => i < self.entries().len() && self.entries()[i as int].0 == id,
                None => !self.has(id),
            },
    {
        let mut i: usize = 0;
        while i < self.entries.len()
            invariant
                i <= self.entries.len(),
                forall|j: int| 0 <= j < i ==> self.entries@[j].0 != id,
            decreases self.entries.len() - i,
        {
            if self.entries[i].0 == id {
                return Some(i);
            }
            i += 1;
        }
        None
    }

    /// Adds one occurrence of `id`; returns whether it was newly added
    /// (multiplicity went from zero to one).  A multiplicity already at the
    /// machine limit stays there.
    pub fn add(&mut self, id: ScopeId) -> (r: bool)
        requires
            old(self).wf(),
        ensures
            final(self).wf(),
            r == !old(self).has(id),
            old(self).count_of(id) < u32::MAX ==> final(self).entries() == spec_list_add(
                old(self).entries(),
                id,
            ),
            old(self).count_of(id) >= u32::MAX ==> final(self).entries() == old(self).entries(),
    {
        proof {
            lemma_count_at_index(self.entries(), id);
        }
        match self.position_of(id) {
            Some(i) => {
                let count = self.entries[i].1;
                proof {
                    lemma_unique_index(self.entries(), id, i as int);
                }
                if count < u32::MAX {
                    self.entries.set(i, (id, count + 1));
                    proof {
                        lemma_wf_update(old(self).entries(), i as int, (id, (count + 1) as u32));
                    }
                }
                false
            }
            None => {
                self.entries.push((id, 1));
                proof {
                    let s = old(self).entries();
                    let t = self.entries();
                    assert forall|p: int, q: int|
                        0 <= p < t.len() && 0 <= q < t.len() && p != q implies t[p].0 != t[q].0 by {
                        if p < s.len() && q < s.len() {
                            assert(s[p].0 != s[q].0);
                        }
                    }
                }
                true
            }
        }
    }

    /// Removes one occurrence of `id`.
    pub fn remove(&mut self, id: ScopeId) -> (r: RemoveResult)
        requires
            old(self).wf(),
        ensures
            final(self).wf(),
            final(self).entries() == spec_list_remove(old(self).entries(), id),
            !old(self).has(id) ==> *final(self) == *old(self),
            r == (if !old(self).has(id) {
                RemoveResult::NoEntry
            } else if old(self).count_of(id) > 1 {
                RemoveResult::Decreased
            } else {
                RemoveResult::Removed
            }),
    {
        proof {
            lemma_count_at_index(self.entries(), id);
        }
        match self.position_of(id) {
            Some(i) => {
                let count = self.entries[i].1;
                proof {
                    lemma_unique_index(self.entries(), id, i as int);
                }
                if count > 1 {
                    self.entries.set(i, (id, count - 1));
                    proof {
                        lemma_wf_update(old(self).entries(), i as int, (id, (count - 1) as u32));
                    }
                    RemoveResult::Decreased
                } else {
                    self.entries.remove(i);
                    proof {
                        lemma_wf_remove(old(self).entries(), i as int);
                    }
                    RemoveResult::Removed
                }
            }
            None => RemoveResult::NoEntry,
        }
    }

    /// The number of distinct scopes in the list.
    pub fn len(&self) -> (r: usize)
        ensures
            r == self.entries().len(),
    {
        self.entries.len()
    }

    pub fn is_empty(&self) -> (r: bool)
        ensures
            r == (self.entries().len() == 0),
    {
        self.entries.len() == 0
    }

    /// The entry at `i`: a scope id and its multiplicity.
    pub fn get(&self, i: usize) -> (r: (ScopeId, u32))
        requires
            i < self.entries().len(),
        ensures
            r == self.entries()[i as int],
    {
        self.entries[i]
    }

    /// The distinct scope ids, copied out in insertion order.
    pub fn to_scope_vec(&self) -> (r: Vec<ScopeId>)
        ensures
            r@ == self.entries().map_values(|p: (ScopeId, u32)| p.0),
    {
        let ghost m = self.entries@.map_values(|p: (ScopeId, u32)| p.0);
        let mut r: Vec<ScopeId> = Vec::new();
        let mut i: usize = 0;
        while i < self.entries.len()
            invariant
                i <= self.entries.len(),
                m == self.entries@.map_values(|p: (ScopeId, u32)| p.0),
                r@ == m.take(i as int),
            decreases self.entries.len() - i,
        {
            r.push(self.entries[i].0);
            proof {
                assert(r@ =~= m.take(i + 1 as int));
            }
            i += 1;
        }
        proof {
            assert(r@ =~= m);
        }
        r
    }

    /// The entries, copied out in insertion order.
    pub fn into_scopes(&self) -> (r: Vec<(ScopeId, u32)>)
        ensures
            r@ == self.entries(),
    {
        let mut r: Vec<(ScopeId, u32)> = Vec::new();
        let mut i: usize = 0;
        while i < self.entries.len()
            invariant
                i <= self.entries.len(),
                r@ == self.entries@.take(i as int),
            decreases self.entries.len() - i,
        {
            r.push(self.entries[i]);
            proof {
                assert(r@ =~= self.entries@.take(i + 1 as int));
            }
            i += 1;
        }
        proof {
            assert(r@ =~= self.entries());
        }
        r
    }
}

/// In a well-formed list an entry index for `id` is unique and carries the
/// whole multiplicity of `id`.
proof fn lemma_unique_index(s: Seq<(ScopeId, u32)>, id: ScopeId, i: int)
    requires
        scope_entries_wf(s),
        0 <= i < s.len(),
        s[i].0 == id,
    ensures
        spec_has_scope(s, id),
        spec_scope_index(s, id) == i,
        scope_count(s, id) == s[i].1 as int,
    decreases s.len(),
{
    assert(spec_has_scope(s, id));
    let j = spec_scope_index(s, id);
    assert(0 <= j < s.len() && s[j].0 == id);
    assert(j == i);
    lemma_count_at_index(s, id);
}

/// The multiplicity of `id` is the count stored at its entry, or zero.
pub proof fn lemma_count_at_index(s: Seq<(ScopeId, u32)>, id: ScopeId)
    requires
        scope_entries_wf(s),
    ensures
        spec_has_scope(s, id) ==> scope_count(s, id) == s[spec_scope_index(s, id)].1 as int,
        !spec_has_scope(s, id) ==> scope_count(s, id) == 0,
    decreases s.len(),
{
    if s.len() > 0 {
        let rest = s.drop_last();
        assert(scope_entries_wf(rest));
        lemma_count_at_index(rest, id);
        if spec_has_scope(s, id) {
            let j = spec_scope_index(s, id);
            assert(0 <= j < s.len() && s[j].0 == id);
            if j == s.len() - 1 {
                assert(!spec_has_scope(rest, id)) by {
                    if spec_has_scope(rest, id) {
                        let k = spec_scope_index(rest, id);
                        assert(s[k].0 == id);
                    }
                }
            } else {
                assert(rest[j] == s[j]);
                assert(spec_has_scope(rest, id));
                assert(spec_scope_index(rest, id) == j) by {
                    let k = spec_scope_index(rest, id);
                    assert(s[k].0 == id);
                }
                assert(s.last().0 != id);
            }
        } else {
            assert(!spec_has_scope(rest, id)) by {
                if spec_has_scope(rest, id) {
                    let k = spec_scope_index(rest, id);
                    assert(s[k].0 == id);
                }
            }
            assert(s.last().0 != id);
        }
    }
}

/// Updating an entry in place with the same id keeps well-formedness.
proof fn lemma_wf_update(s: Seq<(ScopeId, u32)>, i: int, p: (ScopeId, u32))
    requires
        scope_entries_wf(s),
        0 <= i < s.len(),
        p.0 == s[i].0,
        p.1 >= 1,
    ensures
        scope_entries_wf(s.update(i, p)),
{
    let t = s.update(i, p);
    assert forall|a: int, b: int|
        0 <= a < t.len() && 0 <= b < t.len() && a != b implies t[a].0 != t[b].0 by {
        assert(s[a].0 != s[b].0);
    }
}

/// Removing an entry keeps well-formedness.
proof fn lemma_wf_remove(s: Seq<(ScopeId, u32)>, i: int)
    requires
        scope_entries_wf(s),
        0 <= i < s.len(),
    ensures
        scope_entries_wf(s.remove(i)),
{
    let t = s.remove(i);
    assert forall|a: int, b: int|
        0 <= a < t.len() && 0 <= b < t.len() && a != b implies t[a].0 != t[b].0 by {
        let a2: int = if a < i {
            a
        } else {
            a + 1
        };
        let b2: int = if b < i {
            b
        } else {
            b + 1
        };
        assert(t[a] == s[a2] && t[b] == s[b2]);
        assert(s[a2].0 != s[b2].0);
    }
}

/// Adding one occurrence of a scope and then removing one occurrence of the
/// same scope is a no-op on the counted membership.
pub proof fn lemma_list_add_remove_noop(s: Seq<(ScopeId, u32)>, id: ScopeId)
    requires
        scope_entries_wf(s),
        scope_count(s, id) < u32::MAX,
    ensures
        spec_list_remove(spec_list_add(s, id), id) == s,
{
    lemma_count_at_index(s, id);
    if spec_has_scope(s, id) {
        let j = spec_scope_index(s, id);
        assert(0 <= j < s.len() && s[j].0 == id);
        let c = s[j].1;
        let t = s.update(j, (id, (c + 1) as u32));
        lemma_wf_update(s, j, (id, (c + 1) as u32));
        lemma_unique_index(t, id, j);
        assert(spec_list_add(s, id) == t);
        assert(t[j].1 == c + 1);
        assert(t[j].1 > 1);
        assert(spec_list_remove(t, id) == t.update(j, (id, (t[j].1 - 1) as u32)));
        assert(t.update(j, (id, c)) =~= s);
    } else {
        let t = s.push((id, 1));
        assert(spec_list_add(s, id) == t);
        assert(scope_entries_wf(t)) by {
            assert forall|p: int, q: int|
                0 <= p < t.len() && 0 <= q < t.len() && p != q implies t[p].0 != t[q].0 by {
                if p < s.len() && q < s.len() {
                    assert(s[p].0 != s[q].0);
                } else if p < s.len() {
                    assert(!spec_has_scope(s, id));
                    assert(s[p].0 != id);
                } else {
                    assert(s[q].0 != id);
                }
            }
        }
        lemma_unique_index(t, id, s.len() as int);
        assert(t[s.len() as int].1 == 1);
        assert(spec_list_remove(t, id) == t.remove(s.len() as int));
        assert(t.remove(s.len() as int) =~= s);
    }
}

/// Effect of one removal on the removed scope's multiplicity: it loses one
/// occurrence, stopping at zero.
pub proof fn lemma_remove_count_same(s: Seq<(ScopeId, u32)>, id: ScopeId)
    requires
        scope_entries_wf(s),
    ensures
        scope_count(spec_list_remove(s, id), id) == (if scope_count(s, id) > 0 {
            scope_count(s, id) - 1
        } else {
            0
        }),
        scope_entries_wf(spec_list_remove(s, id)),
{
    lemma_count_at_index(s, id);
    if spec_has_scope(s, id) {
        let j = spec_scope_index(s, id);
        if s[j].1 > 1 {
            let t = s.update(j, (id, (s[j].1 - 1) as u32));
            lemma_wf_update(s, j, (id, (s[j].1 - 1) as u32));
            lemma_unique_index(t, id, j);
        } else {
            let t = s.remove(j);
            lemma_wf_remove(s, j);
            lemma_count_at_index(t, id);
            assert(!spec_has_scope(t, id)) by {
                if spec_has_scope(t, id) {
                    let k = spec_scope_index(t, id);
                    let k2: int = if k < j {
                        k
                    } else {
                        k + 1
                    };
                    assert(s[k2] == t[k]);
                    assert(s[k2].0 == s[j].0 && k2 != j);
                }
            }
        }
    }
}

/// An aggregation node: observer count, child scopes with multiplicities,
/// dirty member tasks, and member-task counters.
pub struct Scope {
    /// How many external observers (or active parents) hold this scope.
    pub active_count: u32,
    /// Child scopes with multiplicities.
    pub children: ScopeList,
    /// Member tasks that are dirty while this scope is inactive.
    pub dirty_tasks: AutoSet<TaskId>,
    /// Number of member tasks.
    pub tasks: u32,
    /// Number of member tasks that are not done.
    pub unfinished_tasks: u32,
}

impl Scope {
    pub open spec fn wf(&self) -> bool {
        &&& self.children.wf()
        &&& self.dirty_tasks.wf()
    }

    pub fn new() -> (r: Self)
        ensures
            r.wf(),
            r.active_count == 0,
            r.tasks == 0,
            r.unfinished_tasks == 0,
            r.children.entries() == Seq::<(ScopeId, u32)>::empty(),
            r.dirty_tasks@ == Set::<TaskId>::empty(),
    {
        Scope {
            active_count: 0,
            children: ScopeList::new(),
            dirty_tasks: AutoSet::new(),
            tasks: 0,
            unfinished_tasks: 0,
        }
    }

    /// Whether any external observer currently holds this scope.
    pub fn is_active(&self) -> (r: bool)
        ensures
            r == (self.active_count > 0),
    {
        self.active_count > 0
    }

    /// Counts one more member task; the counter saturates at the machine
    /// limit.
    pub fn increment_tasks(&mut self)
        requires
            old(self).wf(),
        ensures
            final(self).wf(),
            *final(self) == (Scope { tasks: spec_inc(old(self).tasks), ..*old(self) }),
    {
        self.tasks = self.tasks.saturating_add(1);
    }

    /// Counts one member task less; the counter stops at zero.
    pub fn decrement_tasks(&mut self)
        requires
            old(self).wf(),
        ensures
            final(self).wf(),
            *final(self) == (Scope { tasks: spec_dec(old(self).tasks), ..*old(self) }),
    {
        if self.tasks > 0 {
            self.tasks = self.tasks - 1;
        }
    }

    /// Counts one more unfinished member task; the counter saturates at the
    /// machine limit.
    pub fn increment_unfinished_tasks(&mut self)
        requires
            old(self).wf(),
        ensures
            final(self).wf(),
            *final(self) == (Scope {
                unfinished_tasks: spec_inc(old(self).unfinished_tasks),
                ..*old(self)
            }),
    {
        self.unfinished_tasks = self.unfinished_tasks.saturating_add(1);
    }

    /// Decrements the unfinished-task counter; reports whether it reached
    /// zero, so that waiters on "everything settled" can be woken.
    pub fn decrement_unfinished_tasks(&mut self) -> (reached_zero: bool)
        requires
            old(self).wf(),
        ensures
            final(self).wf(),
            *final(self) == (Scope {
                unfinished_tasks: spec_dec(old(self).unfinished_tasks),
                ..*old(self)
            }),
            reached_zero == (old(self).unfinished_tasks == 1),
    {
        if self.unfinished_tasks > 0 {
            self.unfinished_tasks = self.unfinished_tasks - 1;
            self.unfinished_tasks == 0
        } else {
            false
        }
    }

    /// Parks a dirty member task for wake-up when observation starts.
    pub fn add_dirty_task(&mut self, id: TaskId)
        requires
            old(self).wf(),
        ensures
            final(self).wf(),
            *final(self) == (Scope {
                dirty_tasks: final(self).dirty_tasks,
                ..*old(self)
            }),
            final(self).dirty_tasks@ == old(self).dirty_tasks@.insert(id),
    {
        self.dirty_tasks.insert(id);
    }

    pub fn remove_dirty_task(&mut self, id: TaskId)
        requires
            old(self).wf(),
        ensures
            final(self).wf(),
            *final(self) == (Scope {
                dirty_tasks: final(self).dirty_tasks,
                ..*old(self)
            }),
            final(self).dirty_tasks@ == old(self).dirty_tasks@.remove(id),
    {
        self.dirty_tasks.remove(&id);
    }

    /// Inserts `child` as a child scope with multiplicity one more than
    /// before.  Returns whether the child is new here and this scope is
    /// active, in which case the caller must propagate one unit of activity
    /// to the child.
    pub fn add_child(&mut self, child: ScopeId) -> (r: bool)
        requires
            old(self).wf(),
        ensures
            final(self).wf(),
            *final(self) == (Scope { children: final(self).children, ..*old(self) }),
            old(self).children.count_of(child) < u32::MAX ==> final(self).children.entries()
                == spec_list_add(old(self).children.entries(), child),
            old(self).children.count_of(child) >= u32::MAX ==> final(self).children.entries()
                == old(self).children.entries(),
            r == (!old(self).children.has(child) && old(self).active_count > 0),
    {
        let newly = self.children.add(child);
        newly && self.active_count > 0
    }

    /// Inserts `child` with multiplicity `count`.  Returns whether the child
    /// is new here and this scope is active.
    pub fn add_child_count(&mut self, child: ScopeId, count: u32) -> (r: bool)
        requires
            old(self).wf(),
            count >= 1,
            old(self).children.count_of(child) + count <= u32::MAX,
        ensures
            final(self).wf(),
            *final(self) == (Scope { children: final(self).children, ..*old(self) }),
            final(self).children.has(child),
            final(self).children.count_of(child) == old(self).children.count_of(child) + count,
            forall|other: ScopeId|
                other != child ==> final(self).children.count_of(other) == old(
                    self,
                ).children.count_of(other),
            forall|k: int|
                0 <= k < final(self).children.entries().len() ==> ((#[trigger] final(self).children.entries()[k]).0 == child || spec_has_scope(
                    old(self).children.entries(),
                    final(self).children.entries()[k].0,
                )),
            r == (!old(self).children.has(child) && old(self).active_count > 0),
    {
        let mut i: u32 = 0;
        let mut newly: bool = false;
        while i < count
            invariant
                i <= count,
                self.wf(),
                *self == (Scope { children: self.children, ..*old(self) }),
                old(self).children.count_of(child) + count <= u32::MAX,
                self.children.count_of(child) == old(self).children.count_of(child) + i,
                forall|other: ScopeId|
                    other != child ==> self.children.count_of(other) == old(
                        self,
                    ).children.count_of(other),
                i == 0 ==> self.children == old(self).children,
                i > 0 ==> self.children.has(child),
                forall|k: int|
                    0 <= k < self.children.entries().len() ==> ((#[trigger] self.children.entries()[k]).0
                        == child || spec_has_scope(
                        old(self).children.entries(),
                        self.children.entries()[k].0,
                    )),
                newly == (i > 0 && !old(self).children.has(child)),
            decreases count - i,
        {
            proof {
                lemma_count_at_index(self.children.entries(), child);
            }
            let ghost pre = self.children.entries();
            let added = self.children.add(child);
            proof {
                lemma_add_count_effect(pre, child);
                let post = self.children.entries();
                assert forall|k: int|
                    0 <= k < post.len() implies ((#[trigger] post[k]).0 == child
                    || spec_has_scope(old(self).children.entries(), post[k].0)) by {
                    if spec_has_scope(pre, child) {
                        let j = spec_scope_index(pre, child);
                        if k == j {
                            assert(post[k].0 == child);
                        } else {
                            assert(post[k] == pre[k]);
                        }
                    } else {
                        if k < pre.len() {
                            assert(post[k] == pre[k]);
                        } else {
                            assert(post[k].0 == child);
                        }
                    }
                }
            }
            if i == 0 {
                newly = added;
            }
            i += 1;
        }
        newly && self.active_count > 0
    }

    /// Removes one occurrence of `child`.  Returns whether the child's last
    /// occurrence left and this scope is active, in which case the caller
    /// must withdraw one unit of activity from the child.
    pub fn remove_child(&mut self, child: ScopeId) -> (r: bool)
        requires
            old(self).wf(),
        ensures
            final(self).wf(),
            *final(self) == (Scope { children: final(self).children, ..*old(self) }),
            final(self).children.entries() == spec_list_remove(
                old(self).children.entries(),
                child,
            ),
            r == (old(self).children.has(child) && old(self).children.count_of(child) <= 1 && old(
                self,
            ).active_count > 0),
    {
        let result = self.children.remove(child);
        match result {
            RemoveResult::Removed => self.active_count > 0,
            RemoveResult::Decreased | RemoveResult::NoEntry => false,
        }
    }
}

/// Effect of one `add` on the multiplicities: the added scope gains one, all
/// others are unchanged.
pub proof fn lemma_add_count_effect(s: Seq<(ScopeId, u32)>, id: ScopeId)
    requires
        scope_entries_wf(s),
        scope_count(s, id) < u32::MAX,
    ensures
        scope_count(spec_list_add(s, id), id) == scope_count(s, id) + 1,
        forall|other: ScopeId|
            other != id ==> scope_count(spec_list_add(s, id), other) == scope_count(s, other),
        spec_has_scope(spec_list_add(s, id), id),
    decreases s.len(),
{
    lemma_count_at_index(s, id);
    if spec_has_scope(s, id) {
        let j = spec_scope_index(s, id);
        let t = s.update(j, (id, (s[j].1 + 1) as u32));
        lemma_wf_update(s, j, (id, (s[j].1 + 1) as u32));
        lemma_unique_index(t, id, j);
        assert forall|other: ScopeId| other != id implies scope_count(t, other) == scope_count(
            s,
            other,
        ) by {
            lemma_count_update_other(s, j, (id, (s[j].1 + 1) as u32), other);
        }
    } else {
        let t = s.push((id, 1));
        assert(t.drop_last() =~= s);
        assert forall|other: ScopeId| other != id implies scope_count(t, other) == scope_count(
            s,
            other,
        ) by {
            assert(t.last().0 != other);
        }
        assert(scope_count(t, id) == 1 + scope_count(s, id));
        assert(spec_has_scope(t, id)) by {
            assert(t[s.len() as int].0 == id);
        }
    }
}

/// Updating one entry does not change the count of ids other than the one at
/// the updated entry.
proof fn lemma_count_update_other(s: Seq<(ScopeId, u32)>, j: int, p: (ScopeId, u32), other: ScopeId)
    requires
        0 <= j < s.len(),
        s[j].0 != other,
        p.0 != other,
    ensures
        scope_count(s.update(j, p), other) == scope_count(s, other),
    decreases s.len(),
{
    let t = s.update(j, p);
    if s.len() > 0 {
        if j == s.len() - 1 {
            assert(t.drop_last() =~= s.drop_last());
        } else {
            assert(t.drop_last() =~= s.drop_last().update(j, p));
            lemma_count_update_other(s.drop_last(), j, p, other);
            assert(t.last() == s.last());
        }
    }
}

} // verus!
