use vstd::prelude::*;

use crate::entity::Entity;

verus! {

/// Directly-indexed array of optional slots: the "sparse" side of the
/// sparse/dense index. Index `k` holds `Some(v)` while key `k` is present.
#[derive(Debug)]
pub struct SparseArray<T> {
    pub values: Vec<Option<T>>,
}

impl<T> SparseArray<T> {
    pub fn new() -> (r: Self)
        ensures
            r.values@.len() == 0,
    {
        Self { values: Vec::new() }
    }

    pub fn with_capacity(capacity: usize) -> (r: Self)
        ensures
            r.values@.len() == capacity,
            forall|i: int| 0 <= i < capacity ==> r.values@[i] is None,
    {
        let mut values: Vec<Option<T>> = Vec::new();
        while values.len() < capacity
            invariant
                values@.len() <= capacity,
                forall|i: int| 0 <= i < values@.len() ==> values@[i] is None,
            decreases capacity - values@.len(),
        {
            values.push(None);
        }

        Self { values }
    }

    /// Record `index -> value`, growing the array with empty slots if the
    /// index lies beyond its current bounds.
    pub fn insert(&mut self, index: usize, value: T)
        requires
            index < usize::MAX,
        ensures
            final(self).values@.len() == if index < old(self).values@.len() {
                old(self).values@.len() as int
            } else {
                index + 1
            },
            final(self).values@[index as int] == Some(value),
            forall|i: int|
                0 <= i < old(self).values@.len() && i != index
                    ==> final(self).values@[i] == old(self).values@[i],
            forall|i: int|
                old(self).values@.len() <= i < final(self).values@.len() && i != index
                    ==> final(self).values@[i] is None,
    {
        while self.values.len() <= index
            invariant
                index < usize::MAX,
                forall|i: int|
                    0 <= i < old(self).values@.len()
                        ==> self.values@[i] == old(self).values@[i],
                forall|i: int|
                    old(self).values@.len() <= i < self.values@.len()
                        ==> (#[trigger] self.values@[i]) is None,
                self.values@.len() >= old(self).values@.len(),
                self.values@.len() <= if index + 1 > old(self).values@.len() {
                    index + 1
                } else {
                    old(self).values@.len() as int
                },
            decreases index + 1 - self.values@.len(),
        {
            self.values.push(None);
        }

        self.values.set(index, Some(value));
    }

    /// Membership test: within bounds and the slot is occupied.
    pub fn contains(&self, index: usize) -> (r: bool)
        ensures
            r == (index < self.values@.len() && self.values@[index as int] is Some),
    {
        index < self.values.len() && self.values[index].is_some()
    }

    pub fn get(&self, index: usize) -> (r: Option<&T>)
        ensures
            match r {
                Some(v) => index < self.values@.len() && self.values@[index as int] == Some(*v),
                None => !(index < self.values@.len() && self.values@[index as int] is Some),
            },
    {
        if index < self.values.len() {
            match &self.values[index] {
                Some(v) => Some(v),
                None => None,
            }
        } else {
            None
        }
    }

    pub fn get_mut(&mut self, index: usize) -> (r: Option<&mut T>)
        ensures
            match r {
                Some(m) => {
                    &&& index < old(self).values@.len()
                    &&& old(self).values@[index as int] == Some(*m)
                    &&& final(self).values@ == old(self).values@.update(
                        index as int,
                        Some(*final(m)),
                    )
                },
                None => {
                    &&& *final(self) == *old(self)
                    &&& !(index < old(self).values@.len()
                        && old(self).values@[index as int] is Some)
                },
            },
    {
        if index < self.values.len() && self.values[index].is_some() {
            match &mut self.values[index] {
                Some(v) => Some(v),
                None => None,
            }
        } else {
            None
        }
    }

    /// Vacate the slot, returning what it held.
    pub fn remove(&mut self, index: usize) -> (r: Option<T>)
        ensures
            final(self).values@.len() == old(self).values@.len(),
            index < old(self).values@.len() ==> {
                &&& r == old(self).values@[index as int]
                &&& final(self).values@ == old(self).values@.update(index as int, None)
            },
            index >= old(self).values@.len() ==> {
                &&& r is None
                &&& final(self).values@ == old(self).values@
            },
    {
        if index < self.values.len() {
            let mut slot: Option<T> = None;
            self.values.set_and_swap(index, &mut slot);
            slot
        } else {
            None
        }
    }

    pub fn len(&self) -> (r: usize)
        ensures
            r == self.values@.len(),
    {
        self.values.len()
    }
}

/// O(1) key-to-slot map over small integer keys (entity identifiers):
/// a sparse array of slot numbers plus dense, parallel arrays of the keys
/// and their values. Removal swaps the last dense entry into the vacated
/// slot and retargets that entry's sparse pointer.
#[derive(Debug)]
pub struct SparseSet<T> {
    pub sparse: SparseArray<usize>,
    pub dense: Vec<Entity>,
    pub data: Vec<T>,
}

impl<T> SparseSet<T> {
    /// The sparse and dense sides mirror one another:
    /// every dense entry's key points back at its own slot, and every
    /// occupied sparse slot points at a dense entry carrying that key.
    pub open spec fn wf(self) -> bool {
        &&& self.dense@.len() == self.data@.len()
        &&& forall|i: int|
            0 <= i < self.dense@.len() ==> ((#[trigger] self.dense@[i]).0
                < self.sparse.values@.len()
                && self.sparse.values@[self.dense@[i].0 as int] == Some(i as usize))
        &&& forall|k: int|
            0 <= k < self.sparse.values@.len()
                && (#[trigger] self.sparse.values@[k]) is Some ==> {
                let j = self.sparse.values@[k].unwrap();
                &&& (j as int) < self.dense@.len()
                &&& self.dense@[j as int].0 == k
            }
    }

    /// The mathematical content: a finite map from entity identifier to
    /// stored value.
    pub open spec fn as_map(self) -> Map<usize, T> {
        Map::new(
            |k: usize|
                k < self.sparse.values@.len() && self.sparse.values@[k as int] is Some,
            |k: usize| self.data@[self.sparse.values@[k as int].unwrap() as int],
        )
    }

    pub fn new() -> (r: Self)
        ensures
            r.wf(),
            r.as_map() == Map::<usize, T>::empty(),
            r.dense@.len() == 0,
            r.sparse.values@.len() == 0,
    {
        let r = Self { sparse: SparseArray::new(), dense: Vec::new(), data: Vec::new() };
        proof {
            assert(r.as_map() =~= Map::<usize, T>::empty());
        }
        r
    }

    pub fn with_capacity(capacity: usize) -> (r: Self)
        ensures
            r.wf(),
            r.as_map() == Map::<usize, T>::empty(),
            r.dense@.len() == 0,
            r.sparse.values@.len() == capacity,
    {
        let r = Self {
            sparse: SparseArray::with_capacity(capacity),
            data: Vec::new(),
            dense: Vec::new(),
        };
        proof {
            assert(r.as_map() =~= Map::<usize, T>::empty());
        }
        r
    }

    /// How far the sparse side currently reaches (not a count of entries).
    pub fn capacity(&self) -> (r: usize)
        ensures
            r == self.sparse.values@.len(),
    {
        self.sparse.len()
    }

    /// Number of stored entries.
    pub fn len(&self) -> (r: usize)
        ensures
            r == self.dense@.len(),
    {
        self.dense.len()
    }

    pub fn is_empty(&self) -> (r: bool)
        ensures
            r == (self.dense@.len() == 0),
    {
        self.dense.is_empty()
    }

    /// Record the entity's value: the key now points at the end of the dense
    /// side, where the entity and its value are appended in lockstep.
    pub fn insert(&mut self, entity: Entity, component: T)
        requires
            old(self).wf(),
            !old(self).as_map().dom().contains(entity.0),
            entity.0 < usize::MAX,
        ensures
            final(self).wf(),
            final(self).as_map() == old(self).as_map().insert(entity.0, component),
            final(self).dense@ == old(self).dense@.push(entity),
            final(self).data@ == old(self).data@.push(component),
    {
        proof {
            assert(!(entity.0 < old(self).sparse.values@.len()
                && old(self).sparse.values@[entity.0 as int] is Some));
        }
        let index = self.len();
        self.sparse.insert(entity.0, index);

        self.dense.push(entity);
        self.data.push(component);

        proof {
            assert forall|i: int| 0 <= i < self.dense@.len() implies ((
            #[trigger] self.dense@[i]).0 < self.sparse.values@.len()
                && self.sparse.values@[self.dense@[i].0 as int] == Some(i as usize)) by {
                if i < old(self).dense@.len() {
                    assert(old(self).dense@[i].0 != entity.0);
                    assert(self.dense@[i] == old(self).dense@[i]);
                }
            }
            assert forall|k: int|
                0 <= k < self.sparse.values@.len()
                    && (#[trigger] self.sparse.values@[k]) is Some implies {
                let j = self.sparse.values@[k].unwrap();
                &&& (j as int) < self.dense@.len()
                &&& self.dense@[j as int].0 == k
            } by {
                if k != entity.0 {
                    if k < old(self).sparse.values@.len() {
                        assert(self.sparse.values@[k] == old(self).sparse.values@[k]);
                    } else {
                        assert(self.sparse.values@[k] is None);
                    }
                }
            }
            assert(self.wf());
            assert(self.as_map() =~= old(self).as_map().insert(entity.0, component));
        }
    }

    /// Remove the entity's entry by swapping the last dense entry into its
    /// slot; the swapped entry's sparse pointer is retargeted at the vacated
    /// index. Returns the removed value, or `None` for an absent key.
    pub fn remove(&mut self, entity: Entity) -> (r: Option<T>)
        requires
            old(self).wf(),
        ensures
            final(self).wf(),
            final(self).as_map() == old(self).as_map().remove(entity.0),
            old(self).as_map().dom().contains(entity.0) ==> {
                let idx = old(self).sparse.values@[entity.0 as int].unwrap() as int;
                &&& r == Some(old(self).as_map()[entity.0])
                &&& final(self).dense@ == old(self).dense@.update(
                    idx,
                    old(self).dense@.last(),
                ).drop_last()
                &&& final(self).data@ == old(self).data@.update(
                    idx,
                    old(self).data@.last(),
                ).drop_last()
            },
            !old(self).as_map().dom().contains(entity.0) ==> {
                &&& r is None
                &&& final(self).dense@ == old(self).dense@
                &&& final(self).data@ == old(self).data@
            },
    {
        let index_opt = self.sparse.get(entity.0);

        if let Some(index_ref) = index_opt {
            let index = *index_ref;

            let component = self.data.swap_remove(index);
            let _entity = self.dense.swap_remove(index);

            self.sparse.remove(entity.0);

            let ghost vacated = self.sparse.values@;

            if index < self.len() {
                let swapped_entry = self.dense[index];

                proof {
                    assert(old(self).dense@[old(self).dense@.len() - 1].0 == swapped_entry.0);
                    lemma_distinct_keys(*old(self), index as int, old(self).dense@.len() - 1);
                    assert(old(self).sparse.values.len() <= usize::MAX);
                    assert(swapped_entry.0 < old(self).sparse.values@.len());
                }

                self.sparse.insert(swapped_entry.0, index);

                proof {
                    assert(self.sparse.values@ =~= vacated.update(
                        swapped_entry.0 as int,
                        Some(index),
                    ));
                }
            }

            proof {
                lemma_remove_restores(*old(self), *self, entity, index as int);
            }

            Some(component)
        } else {
            proof {
                assert(self.as_map() =~= old(self).as_map().remove(entity.0));
            }
            None
        }
    }

    pub fn get(&self, entity: Entity) -> (r: Option<&T>)
        requires
            self.wf(),
        ensures
            match r {
                Some(v) => self.as_map().dom().contains(entity.0) && *v == self.as_map()[
                    entity.0
                ],
                None => !self.as_map().dom().contains(entity.0),
            },
    {
        match self.sparse.get(entity.0) {
            Some(index_ref) => {
                let index = *index_ref;
                Some(&self.data[index])
            },
            None => None,
        }
    }

    pub fn get_mut(&mut self, entity: Entity) -> (r: Option<&mut T>)
        requires
            old(self).wf(),
        ensures
            match r {
                Some(m) => {
                    &&& old(self).as_map().dom().contains(entity.0)
                    &&& *m == old(self).as_map()[entity.0]
                    &&& final(self).wf()
                    &&& final(self).sparse.values@ == old(self).sparse.values@
                    &&& final(self).dense@ == old(self).dense@
                    &&& final(self).data@ == old(self).data@.update(
                        old(self).sparse.values@[entity.0 as int].unwrap() as int,
                        *final(m),
                    )
                },
                None => {
                    &&& !old(self).as_map().dom().contains(entity.0)
                    &&& *final(self) == *old(self)
                },
            },
    {
        match self.sparse.get(entity.0) {
            Some(index_ref) => {
                let index = *index_ref;
                Some(&mut self.data[index])
            },
            None => None,
        }
    }

    pub fn contains(&self, entity: Entity) -> (r: bool)
        ensures
            r == (entity.0 < self.sparse.values@.len()
                && self.sparse.values@[entity.0 as int] is Some),
            r == self.as_map().dom().contains(entity.0),
    {
        self.sparse.contains(entity.0)
    }

    /// All stored values, in dense (insertion-then-compaction) order.
    pub fn components(&self) -> (r: &[T])
        ensures
            r@ == self.data@,
    {
        self.data.as_slice()
    }

    /// Mutable access to the stored values, in dense order. Writing through
    /// the slice changes values only; the key-to-slot structure is untouched.
    pub fn components_mut(&mut self) -> (r: &mut [T])
        ensures
            r@ == old(self).data@,
            final(r)@ == final(self).data@,
            final(self).sparse.values@ == old(self).sparse.values@,
            final(self).dense@ == old(self).dense@,
    {
        self.data.as_mut_slice()
    }
}

/// Two distinct dense slots always carry distinct keys: each one's sparse
/// entry points back at its own slot.
proof fn lemma_distinct_keys<T>(s: SparseSet<T>, i: int, j: int)
    requires
        s.wf(),
        0 <= i < s.dense@.len(),
        0 <= j < s.dense@.len(),
        i != j,
    ensures
        s.dense@[i].0 != s.dense@[j].0,
{
    assert(s.dense.len() <= usize::MAX);
    assert(s.sparse.values@[s.dense@[i].0 as int] == Some(i as usize));
    assert(s.sparse.values@[s.dense@[j].0 as int] == Some(j as usize));
}

/// After a swap-removal at `idx` (the slot the removed entity occupied), the
/// sparse and dense sides mirror one another again and the map has lost
/// exactly the removed key.
proof fn lemma_remove_restores<T>(pre: SparseSet<T>, post: SparseSet<T>, entity: Entity, idx: int)
    requires
        pre.wf(),
        pre.as_map().dom().contains(entity.0),
        idx == pre.sparse.values@[entity.0 as int].unwrap() as int,
        post.dense@ == pre.dense@.update(idx, pre.dense@.last()).drop_last(),
        post.data@ == pre.data@.update(idx, pre.data@.last()).drop_last(),
        idx < pre.dense@.len() - 1 ==> post.sparse.values@ == pre.sparse.values@.update(
            entity.0 as int,
            None,
        ).update(pre.dense@.last().0 as int, Some(idx as usize)),
        idx == pre.dense@.len() - 1 ==> post.sparse.values@ == pre.sparse.values@.update(
            entity.0 as int,
            None,
        ),
    ensures
        post.wf(),
        post.as_map() == pre.as_map().remove(entity.0),
{
    assert(pre.dense.len() <= usize::MAX);
    assert(0 <= idx < pre.dense@.len());
    assert(pre.dense@[idx].0 == entity.0);
    let last_key = pre.dense@[pre.dense@.len() - 1].0;
    assert(pre.sparse.values@[last_key as int] == Some((pre.dense@.len() - 1) as usize));
    if idx < pre.dense@.len() - 1 {
        lemma_distinct_keys(pre, idx, pre.dense@.len() - 1);
        assert(last_key != entity.0);
    }
    assert forall|i: int| 0 <= i < post.dense@.len() implies ((#[trigger] post.dense@[i]).0
        < post.sparse.values@.len()
        && post.sparse.values@[post.dense@[i].0 as int] == Some(i as usize)) by {
        if i != idx {
            assert(post.dense@[i] == pre.dense@[i]);
            lemma_distinct_keys(pre, i, idx);
            assert(pre.dense@[i].0 != entity.0);
            if idx < pre.dense@.len() - 1 {
                lemma_distinct_keys(pre, i, pre.dense@.len() - 1);
                assert(pre.dense@[i].0 != pre.dense@.last().0);
            }
        } else {
            assert(post.dense@[i] == pre.dense@.last());
        }
    }
    assert forall|k: int|
        0 <= k < post.sparse.values@.len() && (#[trigger] post.sparse.values@[k]) is Some implies {
        let j = post.sparse.values@[k].unwrap();
        &&& (j as int) < post.dense@.len()
        &&& post.dense@[j as int].0 == k
    } by {
        if k == entity.0 as int {
            if idx < pre.dense@.len() - 1 {
                lemma_distinct_keys(pre, idx, pre.dense@.len() - 1);
                assert(pre.dense@.last().0 != entity.0);
            }
            assert(!(post.sparse.values@[k] is Some));
        } else if idx < pre.dense@.len() - 1 && k == pre.dense@.last().0 as int {
            assert(post.sparse.values@[k] == Some(idx as usize));
            assert(post.dense@[idx] == pre.dense@.last());
        } else {
            assert(post.sparse.values@[k] == pre.sparse.values@[k]);
            let j = pre.sparse.values@[k].unwrap();
            assert(pre.dense@[j as int].0 == k);
            assert(j as int != idx);
            if idx < pre.dense@.len() - 1 {
                assert(j as int != pre.dense@.len() - 1);
            }
            assert(post.dense@[j as int] == pre.dense@[j as int]);
        }
    }
    assert(post.wf());
    assert forall|k: usize| true implies #[trigger] post.as_map().dom().contains(k)
        == pre.as_map().remove(entity.0).dom().contains(k) by {
        if k != entity.0 && k < pre.sparse.values@.len() && pre.sparse.values@[k as int] is Some {
            assert(pre.dense@[pre.sparse.values@[k as int].unwrap() as int].0 == k);
        }
    }
    assert forall|k: usize| post.as_map().dom().contains(k) implies #[trigger] post.as_map()[k]
        == pre.as_map().remove(entity.0)[k] by {
        let j = post.sparse.values@[k as int].unwrap();
        assert(post.dense@[j as int].0 == k);
        if idx < pre.dense@.len() - 1 && k == pre.dense@.last().0 {
            assert(j as int == idx);
            assert(post.data@[idx] == pre.data@.last());
            assert(pre.sparse.values@[k as int].unwrap() as int == pre.dense@.len() - 1);
        } else {
            assert(post.sparse.values@[k as int] == pre.sparse.values@[k as int]);
            assert(j as int != idx);
            assert((j as int) < post.data@.len());
            assert(post.data@[j as int] == pre.data@[j as int]);
        }
    }
    assert(post.as_map() =~= pre.as_map().remove(entity.0));
}

} // verus!
