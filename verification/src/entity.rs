use vstd::prelude::*;

use crate::archetype::ArchetypeId;

verus! {

/// Handle to an entity: a raw index into the location table.
///
/// Identifiers are recycled after a `free`, with no generation counter, so a
/// stale copy of a freed handle is indistinguishable from the new entity that
/// inherited the identifier.
#[derive(Debug, Clone, Copy, PartialEq, Eq, Hash, Structural)]
pub struct Entity(pub usize);

impl Entity {
    pub fn from_raw(n: usize) -> (r: Self)
        ensures
            r.0 == n,
    {
        Self(n)
    }

    pub fn id(&self) -> (r: usize)
        ensures
            r == self.0,
    {
        self.0
    }
}

/// An entity's current storage address: which archetype, and which row of it.
///
/// The sentinel returned by [`Location::empty`] (invalid archetype id and
/// maximal row) marks a freed or not-yet-populated slot of the location
/// table; it must never be dereferenced as a real location.
#[derive(Debug, Clone, Copy, PartialEq, Eq, Structural)]
pub struct Location {
    pub row: usize,
    pub id: ArchetypeId,
}

impl Location {
    /// True of the sentinel that marks a slot with no recorded location.
    pub open spec fn is_empty_spec(self) -> bool {
        self.row == usize::MAX && self.id.0 == usize::MAX
    }

    /// The sentinel location: invalid archetype id, maximal row.
    pub fn empty() -> (r: Self)
        ensures
            r.is_empty_spec(),
    {
        Location { row: usize::MAX, id: ArchetypeId(usize::MAX) }
    }

    pub fn archetype(&self) -> (r: ArchetypeId)
        ensures
            r == self.id,
    {
        self.id
    }

    pub fn row(&self) -> (r: usize)
        ensures
            r == self.row,
    {
        self.row
    }
}

/// Allocates entity identifiers and records where each live entity resides.
///
/// Freed identifiers are kept on a stack and reused most-recently-freed
/// first, before the identifier space is extended. A configurable range
/// reserves a low band of identifiers that fresh allocation skips.
#[derive(Debug)]
pub struct Entities {
    pub entities: Vec<Location>,
    pub freed: Vec<usize>,
    pub count: usize,
    pub range_start: usize,
    pub range_end: usize,
}

impl Entities {
    /// Internal consistency of the allocator:
    /// - every freed identifier lies below `count`, is covered by the table,
    ///   appears on the free stack once, and its slot holds the sentinel;
    /// - every identifier at or above `count` was never handed out, so its
    ///   slot (if the table covers it) holds the sentinel.
    pub open spec fn wf(self) -> bool {
        &&& forall|i: int|
            0 <= i < self.freed@.len() ==> (#[trigger] self.freed@[i]) < self.count
        &&& forall|i: int|
            0 <= i < self.freed@.len() ==> (#[trigger] self.freed@[i]) < self.entities@.len()
                && self.entities@[self.freed@[i] as int].is_empty_spec()
        &&& forall|i: int, j: int|
            0 <= i < j < self.freed@.len() ==> self.freed@[i] != self.freed@[j]
        &&& forall|i: int|
            self.count <= i < self.entities@.len()
                ==> (#[trigger] self.entities@[i]).is_empty_spec()
    }

    pub open spec fn spec_get(self, entity: Entity) -> Option<Location> {
        if entity.0 < self.entities@.len() && !self.entities@[entity.0 as int].is_empty_spec() {
            Some(self.entities@[entity.0 as int])
        } else {
            None
        }
    }

    /// `count` after the reserved low band has been skipped.
    pub open spec fn adjusted_count(self) -> usize {
        if self.count < self.range_start {
            self.range_start
        } else {
            self.count
        }
    }

    /// A reservation can be served: either a freed identifier waits on the
    /// stack, or the identifier range is not exhausted.
    pub open spec fn can_reserve(self) -> bool {
        self.freed@.len() > 0 || self.adjusted_count() < self.range_end
    }

    /// The identifier the next reservation hands out.
    pub open spec fn spec_reserve_id(self) -> usize {
        if self.freed@.len() > 0 {
            self.freed@.last()
        } else {
            self.adjusted_count()
        }
    }

    /// Exactly how one `reserve_entity` call takes `pre` to `post`,
    /// returning `r`: the most recently freed identifier is popped, or a
    /// fresh one is taken past the reserved band; the table grows with
    /// sentinel slots just far enough to cover the result.
    pub open spec fn reserve_relation(pre: Entities, post: Entities, r: Entity) -> bool {
        &&& pre.can_reserve()
        &&& r.0 == pre.spec_reserve_id()
        &&& post.entities@.len() == if r.0 < pre.entities@.len() {
            pre.entities@.len() as int
        } else {
            r.0 + 1
        }
        &&& forall|i: int|
            0 <= i < pre.entities@.len() ==> post.entities@[i] == pre.entities@[i]
        &&& forall|i: int|
            pre.entities@.len() <= i < post.entities@.len()
                ==> (#[trigger] post.entities@[i]).is_empty_spec()
        &&& post.freed@ == if pre.freed@.len() > 0 {
            pre.freed@.drop_last()
        } else {
            pre.freed@
        }
        &&& post.count == if pre.freed@.len() > 0 {
            pre.adjusted_count()
        } else {
            (pre.adjusted_count() + 1) as usize
        }
        &&& post.range_start == pre.range_start
        &&& post.range_end == pre.range_end
    }

    /// Exactly how one `free` call takes `pre` to `post`: the slot is reset
    /// to the sentinel and the identifier is pushed on the free stack.
    pub open spec fn free_relation(pre: Entities, post: Entities, entity: Entity) -> bool {
        &&& post.entities@ == pre.entities@.update(entity.0 as int, Location { row: usize::MAX, id: ArchetypeId(usize::MAX) })
        &&& post.freed@ == pre.freed@.push(entity.0)
        &&& post.count == pre.count
        &&& post.range_start == pre.range_start
        &&& post.range_end == pre.range_end
    }

    pub fn new() -> (r: Self)
        ensures
            r.wf(),
            r.entities@.len() == 0,
            r.freed@.len() == 0,
            r.count == 0,
            r.range_start == 0,
            r.range_end == usize::MAX,
    {
        Self {
            entities: Vec::new(),
            freed: Vec::new(),
            count: 0,
            range_start: 0,
            range_end: usize::MAX,
        }
    }

    /// Restrict the band of identifiers that fresh allocation may use:
    /// fresh identifiers start at `range.start` and stay below `range.end`.
    pub fn set_range(&mut self, range: core::ops::Range<usize>)
        ensures
            final(self).entities@ == old(self).entities@,
            final(self).freed@ == old(self).freed@,
            final(self).count == old(self).count,
            final(self).range_start == range.start,
            final(self).range_end == range.end,
    {
        self.range_start = range.start;
        self.range_end = range.end;
    }

    /// Hand out a fresh or recycled identifier, preferring the most recently
    /// freed one, and grow the location table so it covers the result with a
    /// sentinel slot.
    pub fn reserve_entity(&mut self) -> (r: Entity)
        requires
            old(self).wf(),
            old(self).can_reserve(),
        ensures
            final(self).wf(),
            Entities::reserve_relation(*old(self), *final(self), r),
            final(self).spec_get(r) == None::<Location>,
            r.0 < final(self).count,
            final(self).count >= old(self).count,
    {
        if self.count < self.range_start {
            self.count = self.range_start;
        }

        let id: usize = match self.freed.pop() {
            Some(id) => id,
            None => {
                self.count = self.count + 1;
                self.count - 1
            },
        };

        let ghost mid = *self;

        while self.entities.len() <= id
            invariant
                self.count == mid.count,
                self.freed@ == mid.freed@,
                self.range_start == mid.range_start,
                self.range_end == mid.range_end,
                self.entities@.len() >= mid.entities@.len(),
                self.entities@.len() <= if id + 1 > mid.entities@.len() {
                    id + 1
                } else {
                    mid.entities@.len() as int
                },
                forall|i: int|
                    0 <= i < mid.entities@.len() ==> self.entities@[i] == mid.entities@[i],
                forall|i: int|
                    mid.entities@.len() <= i < self.entities@.len()
                        ==> (#[trigger] self.entities@[i]).is_empty_spec(),
            decreases id + 1 - self.entities@.len(),
        {
            self.entities.push(Location::empty());
        }

        proof {
            let pre = *old(self);
            assert(mid.entities@ == pre.entities@);
            if pre.freed@.len() > 0 {
                assert(pre.freed@[pre.freed@.len() - 1] == id);
                assert(pre.entities@[id as int].is_empty_spec());
                assert forall|i: int| 0 <= i < self.freed@.len() implies (#[trigger] self.freed@[i]) == pre.freed@[i] by {
                    assert(self.freed@ == pre.freed@.drop_last());
                }
            }
            assert forall|i: int|
                self.count <= i < self.entities@.len()
                    implies (#[trigger] self.entities@[i]).is_empty_spec() by {
                if i < mid.entities@.len() {
                    assert(self.entities@[i] == pre.entities@[i]);
                    assert(pre.count <= i);
                    assert(pre.entities@[i].is_empty_spec());
                }
            }
            if pre.freed@.len() > 0 {
                assert(id < mid.entities@.len());
                assert(self.entities@[id as int] == pre.entities@[id as int]);
            } else {
                assert(id == pre.adjusted_count());
                if (id as int) < mid.entities@.len() {
                    assert(pre.count <= id);
                    assert(self.entities@[id as int] == pre.entities@[id as int]);
                    assert(pre.entities@[id as int].is_empty_spec());
                } else {
                    assert(mid.entities@.len() <= id as int);
                    assert((id as int) < self.entities@.len());
                }
            }
            assert(self.entities@[id as int].is_empty_spec());
        }

        Entity(id)
    }

    /// Release an identifier: reset its slot to the sentinel, return the
    /// location it last held, and make the identifier eligible for reuse.
    pub fn free(&mut self, entity: Entity) -> (r: Location)
        requires
            old(self).wf(),
            entity.0 < old(self).entities@.len(),
            entity.0 < old(self).count,
            forall|i: int| 0 <= i < old(self).freed@.len() ==> old(self).freed@[i] != entity.0,
        ensures
            final(self).wf(),
            Entities::free_relation(*old(self), *final(self), entity),
            r == old(self).entities@[entity.0 as int],
    {
        let location = self.entities[entity.0];
        self.entities.set(entity.0, Location::empty());
        self.freed.push(entity.0);

        location
    }

    /// The entity's current location, or `None` for a slot never populated
    /// or freed since.
    pub fn get(&self, entity: Entity) -> (r: Option<Location>)
        ensures
            r == self.spec_get(entity),
    {
        if entity.0 < self.entities.len() {
            let location = self.entities[entity.0];

            if location.id.0 != usize::MAX || location.row != usize::MAX {
                Some(location)
            } else {
                None
            }
        } else {
            None
        }
    }
}

impl Default for Entities {
    fn default() -> (r: Self)
        ensures
            r.wf(),
            r.entities@.len() == 0,
            r.freed@.len() == 0,
            r.count == 0,
            r.range_start == 0,
            r.range_end == usize::MAX,
    {
        Self {
            entities: Vec::new(),
            freed: Vec::new(),
            count: 0,
            range_start: 0,
            range_end: usize::MAX,
        }
    }
}

/// Stack-discipline recycling: freeing an entity and then reserving hands
/// the freed identifier straight back.
pub proof fn lemma_recycle_after_free(e0: Entities, e1: Entities, a: Entity)
    requires
        Entities::free_relation(e0, e1, a),
    ensures
        e1.spec_reserve_id() == a.0,
{
}

/// An entity reserved before any free never collides with a
/// freed-then-reused identifier: after two fresh reservations `a` then `c`,
/// freeing `a` and reserving again yields `a`'s identifier, which the
/// surviving entity `c` never held.
pub proof fn lemma_recycling(
    e0: Entities,
    e1: Entities,
    e2: Entities,
    e3: Entities,
    e4: Entities,
    a: Entity,
    c: Entity,
    b: Entity,
)
    requires
        e0.wf(),
        e0.freed@.len() == 0,
        Entities::reserve_relation(e0, e1, a),
        Entities::reserve_relation(e1, e2, c),
        Entities::free_relation(e2, e3, a),
        Entities::reserve_relation(e3, e4, b),
    ensures
        b.0 == a.0,
        b.0 != c.0,
{
}

} // verus!
