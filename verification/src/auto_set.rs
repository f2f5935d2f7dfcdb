//! A small set container with order-independent semantics.
//!
//! The engine keeps many small sets (dependent tasks, children, tracked
//! dependencies).  `AutoSet` stores the elements in insertion order in a
//! vector without duplicates; its mathematical view is the `Set` of its
//! elements.

use vstd::prelude::*;

verus! {

/// Size at which a list-based container would switch its backing store.
pub const MAX_LIST_SIZE: usize = 32;

/// Keys of an [`AutoSet`]: plain copyable values with an executable equality
/// that agrees with mathematical equality.
pub trait SetKey: Sized + Copy {
    fn key_eq(&self, other: &Self) -> (r: bool)
        ensures
            r == (*self == *other),
    ;
}

impl SetKey for usize {
    fn key_eq(&self, other: &Self) -> (r: bool) {
        *self == *other
    }
}

impl SetKey for u32 {
    fn key_eq(&self, other: &Self) -> (r: bool) {
        *self == *other
    }
}

/// A set of keys, backed by a duplicate-free vector.
pub struct AutoSet<K: SetKey> {
    items: Vec<K>,
}

impl<K: SetKey> Default for AutoSet<K> {
    fn default() -> (r: Self)
        ensures
            r.wf(),
            r@ == Set::<K>::empty(),
            r.elems() == Seq::<K>::empty(),
    {
        Self::new()
    }
}

impl<K: SetKey> View for AutoSet<K> {
    type V = Set<K>;

    closed spec fn view(&self) -> Set<K> {
        self.items@.to_set()
    }
}

impl<K: SetKey> AutoSet<K> {
    /// The elements in insertion order.
    pub closed spec fn elems(&self) -> Seq<K> {
        self.items@
    }

    /// The backing vector holds each element once.
    pub closed spec fn wf(&self) -> bool {
        self.items@.no_duplicates()
    }

    /// A well-formed set lists each element once.
    pub proof fn lemma_wf_elems_no_duplicates(&self)
        requires
            self.wf(),
        ensures
            self.elems().no_duplicates(),
    {
    }

    pub proof fn lemma_view_is_elems_set(&self)
        ensures
            self@ == self.elems().to_set(),
            forall|k: K| self@.contains(k) <==> self.elems().contains(k),
            self@.finite(),
    {
        broadcast use vstd::seq_lib::seq_to_set_is_finite;

    }

    pub fn new() -> (r: Self)
        ensures
            r.wf(),
            r@ == Set::<K>::empty(),
            r.elems() == Seq::<K>::empty(),
    {
        let r = AutoSet { items: Vec::new() };
        proof {
            assert(r@ =~= Set::<K>::empty());
            assert(r.elems() =~= Seq::<K>::empty());
        }
        r
    }

    pub fn with_capacity(capacity: usize) -> (r: Self)
        ensures
            r.wf(),
            r@ == Set::<K>::empty(),
            r.elems() == Seq::<K>::empty(),
    {
        let r = AutoSet { items: Vec::with_capacity(capacity) };
        proof {
            assert(r@ =~= Set::<K>::empty());
            assert(r.elems() =~= Seq::<K>::empty());
        }
        r
    }

    pub fn with_hasher() -> (r: Self)
        ensures
            r.wf(),
            r@ == Set::<K>::empty(),
            r.elems() == Seq::<K>::empty(),
    {
        Self::new()
    }

    pub fn with_capacity_and_hasher(capacity: usize) -> (r: Self)
        ensures
            r.wf(),
            r@ == Set::<K>::empty(),
            r.elems() == Seq::<K>::empty(),
    {
        Self::with_capacity(capacity)
    }

    /// Index of `key` in the backing vector, if present.
    fn position_of(&self, key: &K) -> (r: Option<usize>)
        ensures
            match r {
                Some(i) => i < self.elems().len() && self.elems()[i as int] == *key,
                None => !self.elems().contains(*key),
            },
    {
        let mut i: usize = 0;
        while i < self.items.len()
            invariant
                i <= self.items.len(),
                forall|j: int| 0 <= j < i ==> self.items@[j] != *key,
            decreases self.items.len() - i,
        {
            if self.items[i].key_eq(key) {
                return Some(i);
            }
            i += 1;
        }
        None
    }

    /// Inserts `key`; returns whether it was newly added.
    pub fn insert(&mut self, key: K) -> (r: bool)
        requires
            old(self).wf(),
        ensures
            final(self).wf(),
            r == !old(self)@.contains(key),
            old(self)@.contains(key) ==> *final(self) == *old(self),
            final(self)@ == old(self)@.insert(key),
            final(self).elems() == if old(self)@.contains(key) {
                old(self).elems()
            } else {
                old(self).elems().push(key)
            },
    {
        proof {
            self.lemma_view_is_elems_set();
        }
        match self.position_of(&key) {
            Some(_) => {
                proof {
                    assert(old(self)@.contains(key));
                    assert(final(self)@ =~= old(self)@.insert(key));
                }
                false
            }
            None => {
                self.items.push(key);
                proof {
                    assert(final(self).elems() =~= old(self).elems().push(key));
                    Seq::<K>::lemma_push_to_set_commute(old(self).elems(), key);
                    assert(final(self)@ =~= old(self)@.insert(key));
                }
                true
            }
        }
    }

    /// Removes `key`; returns whether it was present.
    pub fn remove(&mut self, key: &K) -> (r: bool)
        requires
            old(self).wf(),
        ensures
            final(self).wf(),
            r == old(self)@.contains(*key),
            !old(self)@.contains(*key) ==> *final(self) == *old(self),
            final(self)@ == old(self)@.remove(*key),
    {
        proof {
            self.lemma_view_is_elems_set();
        }
        match self.position_of(key) {
            Some(i) => {
                let ghost prior = self.items@;
                self.items.remove(i);
                proof {
                    lemma_remove_keeps_no_duplicates(prior, i as int);
                    lemma_remove_from_set(prior, i as int);
                    assert(final(self)@ =~= old(self)@.remove(*key));
                }
                true
            }
            None => {
                proof {
                    assert(final(self)@ =~= old(self)@.remove(*key));
                }
                false
            }
        }
    }

    pub fn contains(&self, key: &K) -> (r: bool)
        ensures
            r == self@.contains(*key),
    {
        proof {
            self.lemma_view_is_elems_set();
        }
        self.position_of(key).is_some()
    }

    pub fn len(&self) -> (r: usize)
        requires
            self.wf(),
        ensures
            r == self@.len(),
            r == self.elems().len(),
    {
        proof {
            self.items@.unique_seq_to_set();
        }
        self.items.len()
    }

    pub fn is_empty(&self) -> (r: bool)
        requires
            self.wf(),
        ensures
            r == (self@.len() == 0),
    {
        proof {
            self.items@.unique_seq_to_set();
        }
        self.items.len() == 0
    }

    /// Builds a set from the given elements, dropping duplicates.
    pub fn from_vec(items: Vec<K>) -> (r: Self)
        ensures
            r.wf(),
            r@ == items@.to_set(),
    {
        let mut set: Self = Self::with_hasher();
        let mut i: usize = 0;
        while i < items.len()
            invariant
                i <= items@.len(),
                set.wf(),
                set@ == items@.take(i as int).to_set(),
            decreases items@.len() - i,
        {
            proof {
                assert(items@.take(i + 1 as int) =~= items@.take(i as int).push(
                    items@[i as int],
                ));
                Seq::<K>::lemma_push_to_set_commute(items@.take(i as int), items@[i as int]);
            }
            set.insert(items[i]);
            i += 1;
        }
        proof {
            assert(items@.take(items@.len() as int) =~= items@);
        }
        set
    }

    /// Removes every element.
    pub fn clear(&mut self)
        ensures
            final(self).wf(),
            final(self)@ == Set::<K>::empty(),
            final(self).elems() == Seq::<K>::empty(),
    {
        self.items.clear();
        proof {
            assert(self@ =~= Set::<K>::empty());
            assert(self.elems() =~= Seq::<K>::empty());
        }
    }

    /// The elements, copied out in insertion order.
    pub fn to_vec(&self) -> (r: Vec<K>)
        ensures
            r@ == self.elems(),
    {
        let mut r: Vec<K> = Vec::new();
        let mut i: usize = 0;
        while i < self.items.len()
            invariant
                i <= self.items.len(),
                r@ == self.items@.take(i as int),
            decreases self.items.len() - i,
        {
            r.push(self.items[i]);
            proof {
                assert(r@ =~= self.items@.take(i + 1 as int));
            }
            i += 1;
        }
        proof {
            assert(r@ =~= self.elems());
        }
        r
    }

    /// The element at `i` in insertion order.
    pub fn get(&self, i: usize) -> (r: K)
        requires
            i < self.elems().len(),
        ensures
            r == self.elems()[i as int],
            self@.contains(r),
    {
        proof {
            self.lemma_view_is_elems_set();
        }
        self.items[i]
    }

    pub fn iter(&self) -> (r: Iter<'_, K>)
        ensures
            r.elems() == self.elems(),
            r.pos() == 0,
    {
        Iter { items: &self.items, pos: 0 }
    }

    pub fn into_iter(self) -> (r: IntoIter<K>)
        ensures
            r.elems() == self.elems(),
            r.pos() == 0,
    {
        IntoIter { items: self.items, pos: 0 }
    }
}

/// Borrowing iterator over an [`AutoSet`], in insertion order.
pub struct Iter<'a, K: SetKey> {
    items: &'a Vec<K>,
    pos: usize,
}

impl<'a, K: SetKey> Iter<'a, K> {
    pub closed spec fn elems(&self) -> Seq<K> {
        self.items@
    }

    pub closed spec fn pos(&self) -> int {
        self.pos as int
    }

    pub fn next(&mut self) -> (r: Option<K>)
        ensures
            final(self).elems() == old(self).elems(),
            match r {
                Some(k) => old(self).pos() < old(self).elems().len()
                    && k == old(self).elems()[old(self).pos()]
                    && final(self).pos() == old(self).pos() + 1,
                None => old(self).pos() >= old(self).elems().len()
                    && final(self).pos() == old(self).pos(),
            },
    {
        if self.pos < self.items.len() {
            let k = self.items[self.pos];
            self.pos += 1;
            Some(k)
        } else {
            None
        }
    }
}

/// Owning iterator over an [`AutoSet`], in insertion order.
pub struct IntoIter<K: SetKey> {
    items: Vec<K>,
    pos: usize,
}

impl<K: SetKey> IntoIter<K> {
    pub closed spec fn elems(&self) -> Seq<K> {
        self.items@
    }

    pub closed spec fn pos(&self) -> int {
        self.pos as int
    }

    pub fn next(&mut self) -> (r: Option<K>)
        ensures
            final(self).elems() == old(self).elems(),
            match r {
                Some(k) => old(self).pos() < old(self).elems().len()
                    && k == old(self).elems()[old(self).pos()]
                    && final(self).pos() == old(self).pos() + 1,
                None => old(self).pos() >= old(self).elems().len()
                    && final(self).pos() == old(self).pos(),
            },
    {
        if self.pos < self.items.len() {
            let k = self.items[self.pos];
            self.pos += 1;
            Some(k)
        } else {
            None
        }
    }
}

impl<K: SetKey> PartialEq for AutoSet<K> {
    /// Order-independent equality: two sets are equal when they hold the
    /// same elements.
    fn eq(&self, other: &Self) -> (r: bool) {
        proof {
            self.lemma_view_is_elems_set();
            other.lemma_view_is_elems_set();
        }
        let mut i: usize = 0;
        while i < self.items.len()
            invariant
                i <= self.items@.len(),
                forall|j: int| 0 <= j < i ==> other@.contains(#[trigger] self.items@[j]),
            decreases self.items@.len() - i,
        {
            if !other.contains(&self.items[i]) {
                proof {
                    self.lemma_view_is_elems_set();
                    assert(self@.contains(self.items@[i as int]));
                }
                return false;
            }
            i += 1;
        }
        let mut j: usize = 0;
        while j < other.items.len()
            invariant
                j <= other.items@.len(),
                forall|k: int| 0 <= k < self.items@.len() ==> other@.contains(#[trigger] self.items@[k]),
                forall|k: int| 0 <= k < j ==> self@.contains(#[trigger] other.items@[k]),
            decreases other.items@.len() - j,
        {
            if !self.contains(&other.items[j]) {
                proof {
                    other.lemma_view_is_elems_set();
                    assert(other@.contains(other.items@[j as int]));
                }
                return false;
            }
            j += 1;
        }
        proof {
            self.lemma_view_is_elems_set();
            other.lemma_view_is_elems_set();
            assert(self@ =~= other@);
        }
        true
    }
}

impl<K: SetKey> vstd::std_specs::cmp::PartialEqSpecImpl for AutoSet<K> {
    open spec fn obeys_eq_spec() -> bool {
        true
    }

    open spec fn eq_spec(&self, other: &Self) -> bool {
        self@ == other@
    }
}

impl<K: SetKey> Eq for AutoSet<K> {

}

/// Removing one index from a duplicate-free sequence keeps it duplicate-free.
proof fn lemma_remove_keeps_no_duplicates<K>(s: Seq<K>, i: int)
    requires
        s.no_duplicates(),
        0 <= i < s.len(),
    ensures
        s.remove(i).no_duplicates(),
{
    let r = s.remove(i);
    assert forall|p: int, q: int| 0 <= p < q < r.len() implies r[p] != r[q] by {
        if q < i {
            assert(r[p] == s[p] && r[q] == s[q]);
        } else if p < i {
            assert(r[p] == s[p] && r[q] == s[q + 1]);
        } else {
            assert(r[p] == s[p + 1] && r[q] == s[q + 1]);
        }
    }
}

/// Removing index `i` from a duplicate-free sequence removes exactly `s[i]`
/// from its element set.
proof fn lemma_remove_from_set<K>(s: Seq<K>, i: int)
    requires
        s.no_duplicates(),
        0 <= i < s.len(),
    ensures
        s.remove(i).to_set() == s.to_set().remove(s[i]),
{
    let r = s.remove(i);
    assert forall|k: K| r.to_set().contains(k) implies s.to_set().remove(s[i]).contains(k) by {
        let j = choose|j: int| 0 <= j < r.len() && r[j] == k;
        if j < i {
            assert(s[j] == k);
        } else {
            assert(s[j + 1] == k);
        }
    }
    assert forall|k: K| s.to_set().remove(s[i]).contains(k) implies r.to_set().contains(k) by {
        let j = choose|j: int| 0 <= j < s.len() && s[j] == k;
        assert(j != i);
        if j < i {
            assert(r[j] == k);
        } else {
            assert(r[j - 1] == k);
        }
    }
    assert(r.to_set() =~= s.to_set().remove(s[i]));
}

} // verus!
