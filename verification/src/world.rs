use vstd::prelude::*;

use crate::archetype::{
    canonicalize, lemma_canonical_unique, same_members, schema_with, schema_without, sorted_strict, Archetype,
    ArchetypeId, Archetypes,
};
use crate::entity::{Entities, Entity, Location};

verus! {

/// Why a structural operation was refused. Every error is checkable by the
/// caller; none aborts the engine.
#[derive(Debug, Clone, Copy, PartialEq, Eq, Structural)]
pub enum EcsError {
    /// A construction batch carried the same component type twice.
    DuplicateComponentType,
    /// The entity has no recorded location (never created, or freed).
    EntityNotFound,
    /// The component type to add is already in the entity's schema.
    ComponentAlreadyPresent,
    /// The component type to read or remove is not in the entity's schema.
    ComponentNotFound,
}

/// The type identifiers of a batch of components, in batch order.
pub open spec fn tags_of<T>(row: Seq<(u64, T)>) -> Seq<u64> {
    row.map_values(|p: (u64, T)| p.0)
}

/// No component type occurs twice in the batch.
pub open spec fn distinct_tags<T>(row: Seq<(u64, T)>) -> bool {
    forall|k1: int, k2: int| 0 <= k1 < k2 < row.len() ==> row[k1].0 != row[k2].0
}

/// The position in the batch carrying component type `t` (unique when the
/// batch's tags are distinct).
pub open spec fn tag_index<T>(row: Seq<(u64, T)>, t: u64) -> int {
    choose|k: int| 0 <= k < row.len() && row[k].0 == t
}

/// The storage engine: entity allocator, archetype registry, and the
/// location table that ties them together.
///
/// Component values are type-erased: the engine stores any caller-chosen
/// payload type `T` and tells values apart only by the `u64` type identifier
/// the caller supplies with each one. One archetype column holds all values
/// of one type identifier for all entities of one schema.
#[derive(Debug)]
pub struct World<T> {
    pub archetypes: Archetypes<T>,
    pub entities: Entities,
}

impl<T> World<T> {
    /// The engine's global invariant. Beyond the well-formedness of the two
    /// halves:
    /// - every live entity's recorded location names a real archetype and a
    ///   real row of it, and that row is recorded as belonging to the entity;
    /// - every row of every archetype belongs to a live entity whose
    ///   recorded location is exactly that row;
    /// - every memoized "add component" edge points at the archetype whose
    ///   schema extends the source schema by exactly that component type.
    pub open spec fn wf(self) -> bool {
        &&& self.entities.wf()
        &&& self.archetypes.wf()
        &&& forall|e: int|
            0 <= e < self.entities.entities@.len() && !(#[trigger] self.entities.entities@[e]).is_empty_spec()
                ==> {
                let l = self.entities.entities@[e];
                &&& (l.id.0 as int) < self.archetypes.archetypes@.len()
                &&& (l.row as int) < self.archetypes.archetypes@[l.id.0 as int].entities@.len()
                &&& self.archetypes.archetypes@[l.id.0 as int].entities@[l.row as int].0 == e
            }
        &&& forall|a: int, r: int|
            0 <= a < self.archetypes.archetypes@.len() && 0 <= r < self.archetypes.archetypes@[a].entities@.len()
                ==> {
                let e = #[trigger] self.archetypes.archetypes@[a].entities@[r];
                &&& (e.0 as int) < self.entities.entities@.len()
                &&& self.entities.entities@[e.0 as int] == (Location {
                    row: r as usize,
                    id: ArchetypeId(a as usize),
                })
            }
        &&& forall|a: int, t: u64|
            0 <= a < self.archetypes.archetypes@.len()
                && (#[trigger] self.archetypes.archetypes@[a].add.contents().dom().contains(t))
                ==> {
                let v = self.archetypes.archetypes@[a].add.contents()[t] as int;
                &&& v < self.archetypes.archetypes@.len()
                &&& schema_with(
                    self.archetypes.archetypes@[a].types@,
                    t,
                    self.archetypes.archetypes@[v].types@,
                )
            }
    }

    /// The entity identifier currently has a recorded location.
    pub open spec fn live(self, eid: usize) -> bool {
        (eid as int) < self.entities.entities@.len()
            && !self.entities.entities@[eid as int].is_empty_spec()
    }

    pub open spec fn location_of(self, eid: usize) -> Location {
        self.entities.entities@[eid as int]
    }

    pub open spec fn archetype_of(self, eid: usize) -> Archetype<T> {
        self.archetypes.archetypes@[self.location_of(eid).id.0 as int]
    }

    /// The canonical schema the entity currently lives under.
    pub open spec fn schema_of(self, eid: usize) -> Seq<u64> {
        self.archetype_of(eid).types@
    }

    /// The entity is live and its schema holds the component type.
    pub open spec fn has_component_spec(self, eid: usize, t: u64) -> bool {
        self.live(eid) && self.schema_of(eid).contains(t)
    }

    /// The value stored for the entity under component type `t` (meaningful
    /// when `has_component_spec(eid, t)` holds).
    pub open spec fn component_value(self, eid: usize, t: u64) -> T {
        let a = self.archetype_of(eid);
        a.components@[a.types@.index_of(t)]@[self.location_of(eid).row as int]
    }

    pub fn new() -> (r: Self)
        ensures
            r.wf(),
            r.entities.entities@.len() == 0,
            r.entities.freed@.len() == 0,
            r.entities.count == 0,
            r.entities.can_reserve(),
            r.archetypes.archetypes@.len() == 0,
    {
        Self { archetypes: Archetypes::new(), entities: Entities::new() }
    }

    /// Resolve the archetype for the canonical form of `types`, creating and
    /// interning it on first use. Requests naming the same set of component
    /// types, in any order, resolve to the same archetype identity.
    pub fn archetype_for_schema(&mut self, types: &Vec<u64>) -> (r: ArchetypeId)
        requires
            old(self).wf(),
        ensures
            final(self).wf(),
            final(self).entities == old(self).entities,
            (r.0 as int) < final(self).archetypes.archetypes@.len(),
            final(self).archetypes.archetypes@.len() >= old(self).archetypes.archetypes@.len(),
            final(self).archetypes.archetypes@.len() <= old(self).archetypes.archetypes@.len() + 1,
            forall|i: int|
                0 <= i < old(self).archetypes.archetypes@.len()
                    ==> #[trigger] final(self).archetypes.archetypes@[i] == old(self).archetypes.archetypes@[i],
            sorted_strict(final(self).archetypes.archetypes@[r.0 as int].types@),
            same_members(final(self).archetypes.archetypes@[r.0 as int].types@, types@),
            forall|i: int|
                0 <= i < old(self).archetypes.archetypes@.len() && same_members(
                    (#[trigger] old(self).archetypes.archetypes@[i]).types@,
                    types@,
                ) ==> r.0 == i,
            final(self).archetypes.archetypes@.len() > old(self).archetypes.archetypes@.len()
                ==> r.0 == old(self).archetypes.archetypes@.len() && final(self).archetypes.archetypes@[r.0 as int].entities@.len() == 0,
    {
        let canon = canonicalize(types);
        if self.archetypes.has_archetype(&canon) {
            let id = match self.archetypes.get_by_types_mut(&canon) {
                Some(archetype) => archetype.id(),
                None => vstd::pervasive::unreached(),
            };
            proof {
                let idx = old(self).archetypes.types.contents()[canon@] as int;
                assert(old(self).archetypes.archetypes@[idx].types@ == canon@);
                assert(id.0 == idx);
                assert(self.archetypes.archetypes@ =~= old(self).archetypes.archetypes@);
                assert forall|i: int|
                    0 <= i < old(self).archetypes.archetypes@.len() && same_members(
                        (#[trigger] old(self).archetypes.archetypes@[i]).types@,
                        types@,
                    ) implies id.0 == i by {
                    lemma_canonical_unique(old(self).archetypes.archetypes@[i].types@, canon@);
                }
            }
            id
        } else {
            proof {
                assert forall|i: int|
                    0 <= i < self.archetypes.archetypes@.len() implies !same_members(
                    (#[trigger] self.archetypes.archetypes@[i]).types@,
                    canon@,
                ) by {
                    if same_members(self.archetypes.archetypes@[i].types@, canon@) {
                        lemma_canonical_unique(self.archetypes.archetypes@[i].types@, canon@);
                        assert(self.archetypes.types.contents().dom().contains(canon@));
                    }
                }
                assert forall|i: int|
                    0 <= i < self.archetypes.archetypes@.len() implies !same_members(
                    (#[trigger] self.archetypes.archetypes@[i]).types@,
                    types@,
                ) by {
                    if same_members(self.archetypes.archetypes@[i].types@, types@) {
                        assert(same_members(self.archetypes.archetypes@[i].types@, canon@));
                    }
                }
            }
            let id = self.archetypes.create_archetype(&canon);
            proof {
                let n = old(self).archetypes.archetypes@.len() as int;
                assert(self.archetypes.archetypes@[n].entities@.len() == 0);
                assert forall|e: int|
                    0 <= e < self.entities.entities@.len() && !(
                    #[trigger] self.entities.entities@[e]).is_empty_spec() implies {
                    let l = self.entities.entities@[e];
                    &&& (l.id.0 as int) < self.archetypes.archetypes@.len()
                    &&& (l.row as int)
                        < self.archetypes.archetypes@[l.id.0 as int].entities@.len()
                    &&& self.archetypes.archetypes@[l.id.0 as int].entities@[l.row as int].0 == e
                } by {
                    let l = self.entities.entities@[e];
                    assert((l.id.0 as int) < n);
                    assert(self.archetypes.archetypes@[l.id.0 as int] == old(self).archetypes.archetypes@[l.id.0 as int]);
                }
                assert forall|a: int, r: int|
                    0 <= a < self.archetypes.archetypes@.len() && 0 <= r
                        < self.archetypes.archetypes@[a].entities@.len() implies {
                    let e = #[trigger] self.archetypes.archetypes@[a].entities@[r];
                    &&& (e.0 as int) < self.entities.entities@.len()
                    &&& self.entities.entities@[e.0 as int] == (Location {
                        row: r as usize,
                        id: ArchetypeId(a as usize),
                    })
                } by {
                    if a < n {
                        assert(self.archetypes.archetypes@[a] == old(self).archetypes.archetypes@[a]);
                    }
                }
                assert forall|a: int, t: u64|
                    0 <= a < self.archetypes.archetypes@.len() && (
                    #[trigger] self.archetypes.archetypes@[a].add.contents().dom().contains(
                        t,
                    )) implies {
                    let v = self.archetypes.archetypes@[a].add.contents()[t] as int;
                    &&& v < self.archetypes.archetypes@.len()
                    &&& schema_with(
                        self.archetypes.archetypes@[a].types@,
                        t,
                        self.archetypes.archetypes@[v].types@,
                    )
                } by {
                    if a < n {
                        assert(self.archetypes.archetypes@[a] == old(self).archetypes.archetypes@[a]);
                        let v = self.archetypes.archetypes@[a].add.contents()[t] as int;
                        assert(v < n);
                        assert(self.archetypes.archetypes@[v] == old(self).archetypes.archetypes@[v]);
                    } else {
                        assert(self.archetypes.archetypes@[a].add.contents()
                            =~= Map::<u64, usize>::empty());
                    }
                }
            }
            id
        }
    }

    /// Intern a new archetype for the canonical form of `types`. No existing
    /// archetype may already cover the same set of component types; callers
    /// that cannot rule that out use [`World::archetype_for_schema`].
    pub fn create_archetype(&mut self, types: &Vec<u64>) -> (r: ArchetypeId)
        requires
            old(self).wf(),
            forall|i: int|
                0 <= i < old(self).archetypes.archetypes@.len() ==> !same_members(
                    (#[trigger] old(self).archetypes.archetypes@[i]).types@,
                    types@,
                ),
        ensures
            final(self).wf(),
            final(self).entities == old(self).entities,
            r.0 == old(self).archetypes.archetypes@.len(),
            final(self).archetypes.archetypes@.len() == old(self).archetypes.archetypes@.len()
                + 1,
            forall|i: int|
                0 <= i < old(self).archetypes.archetypes@.len()
                    ==> #[trigger] final(self).archetypes.archetypes@[i] == old(self).archetypes.archetypes@[i],
            sorted_strict(final(self).archetypes.archetypes@[r.0 as int].types@),
            same_members(final(self).archetypes.archetypes@[r.0 as int].types@, types@),
            final(self).archetypes.archetypes@[r.0 as int].entities@.len() == 0,
    {
        let ghost pre = *self;
        let id = self.archetype_for_schema(types);
        proof {
            if self.archetypes.archetypes@.len() == pre.archetypes.archetypes@.len() {
                assert(!same_members(pre.archetypes.archetypes@[id.0 as int].types@, types@));
            }
        }
        id
    }
}

impl<T> World<T> {
    /// An identifier handed out by the allocator and not yet populated: its
    /// slot is covered and empty, and it is on neither side of the free
    /// stack. Such an identifier can safely receive its first location.
    pub open spec fn reserved_for(self, entity: Entity) -> bool {
        &&& !self.live(entity.0)
        &&& (entity.0 as int) < self.entities.entities@.len()
        &&& entity.0 < self.entities.count
        &&& forall|i: int|
            0 <= i < self.entities.freed@.len() ==> (#[trigger] self.entities.freed@[i])
                != entity.0
    }

    /// Place a freshly reserved entity into the archetype matching the
    /// batch's component set. A batch naming the same type twice is
    /// rejected whole.
    fn spawn_at(&mut self, entity: Entity, components: Vec<(u64, T)>) -> (r: Result<
        Entity,
        EcsError,
    >)
        requires
            old(self).wf(),
            old(self).reserved_for(entity),
        ensures
            final(self).wf(),
            !distinct_tags(components@) ==> r == Err::<Entity, EcsError>(
                EcsError::DuplicateComponentType,
            ) && *final(self) == *old(self),
            distinct_tags(components@) ==> {
                &&& r == Ok::<Entity, EcsError>(entity)
                &&& final(self).live(entity.0)
                &&& sorted_strict(final(self).schema_of(entity.0))
                &&& same_members(final(self).schema_of(entity.0), tags_of(components@))
                &&& forall|k: int|
                    0 <= k < components@.len() ==> final(self).component_value(
                        entity.0,
                        (#[trigger] components@[k]).0,
                    ) == components@[k].1
                &&& final(self).entities.entities@.len() == old(self).entities.entities@.len()
                &&& final(self).entities.freed@ == old(self).entities.freed@
                &&& final(self).entities.count == old(self).entities.count
                &&& forall|e2: int|
                    0 <= e2 < old(self).entities.entities@.len() && e2 != entity.0
                        ==> final(self).entities.entities@[e2] == old(self).entities.entities@[e2]
                &&& forall|e2: usize, t: u64|
                    #[trigger] old(self).has_component_spec(e2, t) && e2 != entity.0 ==> final(self).has_component_spec(e2, t) && final(self).component_value(e2, t) == old(self).component_value(e2, t)
            },
    {
        let n = components.len();
        let mut k1: usize = 0;
        while k1 < n
            invariant
                *self == *old(self),
                old(self).wf(),
                n == components@.len(),
                k1 <= n,
                forall|a: int, b: int| 0 <= a < b < components@.len() && a < k1 ==> (#[trigger] components@[a]).0 != (#[trigger] components@[b]).0,
            decreases n - k1,
        {
            let mut k2: usize = k1 + 1;
            while k2 < n
                invariant
                    *self == *old(self),
                    old(self).wf(),
                    n == components@.len(),
                    k1 < n,
                    k1 + 1 <= k2 <= n,
                    forall|b: int| k1 < b < k2 ==> (#[trigger] components@[b]).0 != components@[k1 as int].0,
                decreases n - k2,
            {
                if components[k2].0 == components[k1].0 {
                    return Err(EcsError::DuplicateComponentType);
                }
                k2 = k2 + 1;
            }
            k1 = k1 + 1;
        }
        proof {
            assert(distinct_tags(components@));
        }

        let mut tags: Vec<u64> = Vec::new();
        let mut k: usize = 0;
        while k < n
            invariant
                n == components@.len(),
                k <= n,
                tags@.len() == k,
                forall|i: int| 0 <= i < k ==> #[trigger] tags@[i] == components@[i].0,
            decreases n - k,
        {
            tags.push(components[k].0);
            k = k + 1;
        }
        proof {
            assert(tags@ =~= tags_of(components@));
        }
        let ghost pre = *self;

        let target = self.archetype_for_schema(&tags);

        proof {
            assert forall|e2: usize, t: u64|
                #[trigger] pre.has_component_spec(e2, t) implies self.has_component_spec(e2, t)
                && self.component_value(e2, t) == pre.component_value(e2, t) by {
                let l = pre.entities.entities@[e2 as int];
                assert(self.archetypes.archetypes@[l.id.0 as int] == pre.archetypes.archetypes@[l.id.0 as int]);
            }
        }

        self.place_row(entity, target, components);

        Ok(entity)
    }

    /// Append a batch as one new row of the given archetype and record the
    /// entity's location. The batch must carry exactly the archetype's
    /// schema.
    fn place_row(&mut self, entity: Entity, target: ArchetypeId, components: Vec<(u64, T)>)
        requires
            old(self).wf(),
            old(self).reserved_for(entity),
            distinct_tags(components@),
            (target.0 as int) < old(self).archetypes.archetypes@.len(),
            same_members(
                old(self).archetypes.archetypes@[target.0 as int].types@,
                tags_of(components@),
            ),
        ensures
            final(self).wf(),
            final(self).live(entity.0),
            final(self).schema_of(entity.0) == old(self).archetypes.archetypes@[target.0 as int].types@,
            forall|k: int|
                0 <= k < components@.len() ==> final(self).component_value(
                    entity.0,
                    (#[trigger] components@[k]).0,
                ) == components@[k].1,
            final(self).entities.entities@.len() == old(self).entities.entities@.len(),
            final(self).entities.freed@ == old(self).entities.freed@,
            final(self).entities.count == old(self).entities.count,
            final(self).archetypes.archetypes@.len() == old(self).archetypes.archetypes@.len(),
            forall|e2: int|
                0 <= e2 < old(self).entities.entities@.len() && e2 != entity.0
                    ==> final(self).entities.entities@[e2] == old(self).entities.entities@[e2],
            forall|i: int|
                0 <= i < old(self).archetypes.archetypes@.len() ==> (#[trigger] final(self).archetypes.archetypes@[i]).types@ == old(self).archetypes.archetypes@[i].types@
                    && final(self).archetypes.archetypes@[i].add == old(self).archetypes.archetypes@[i].add,
            forall|e2: usize, t: u64|
                e2 != entity.0 ==> #[trigger] final(self).has_component_spec(e2, t) == old(self).has_component_spec(e2, t),
            forall|e2: usize, t: u64|
                #[trigger] old(self).has_component_spec(e2, t) && e2 != entity.0 ==> final(self).component_value(e2, t) == old(self).component_value(e2, t),
    {
        let ghost mid = *self;
        let ghost comps = components@;

        let ordered = {
            let a = self.archetypes.get_by_index(target.index());
            order_by_schema(&a.types, components)
        };
        let ghost ord = ordered@;

        let a = self.archetypes.get_by_id_mut(target);
        let row = a.rows();
        a.append(entity, ordered);
        self.entities.entities.set(entity.id(), Location { row, id: target });

        proof {
            spawn_at_restores(*old(self), mid, *self, entity, target, row, comps, ord);
            assert forall|i: int|
                0 <= i < old(self).archetypes.archetypes@.len() implies (#[trigger] self.archetypes.archetypes@[i]).types@ == old(self).archetypes.archetypes@[i].types@
                && self.archetypes.archetypes@[i].add == old(self).archetypes.archetypes@[i].add by {
                if i != target.0 {
                    assert(self.archetypes.archetypes@[i] == old(self).archetypes.archetypes@[i]);
                }
            }
            assert forall|e2: usize, t: u64|
                e2 != entity.0 implies #[trigger] self.has_component_spec(e2, t) == old(self).has_component_spec(e2, t) by {
                if (e2 as int) < old(self).entities.entities@.len() {
                    assert(self.entities.entities@[e2 as int] == old(self).entities.entities@[e2 as int]);
                    if old(self).has_component_spec(e2, t) || self.has_component_spec(e2, t) {
                        let l = old(self).entities.entities@[e2 as int];
                        if !l.is_empty_spec() {
                            assert((l.id.0 as int) < old(self).archetypes.archetypes@.len());
                            assert(self.archetypes.archetypes@[l.id.0 as int].types@ == old(self).archetypes.archetypes@[l.id.0 as int].types@);
                        }
                    }
                }
            }
        }
    }

    /// Clear the entity's location and compact its row away, swap-with-last
    /// style; the displaced entity's recorded location is retargeted at the
    /// vacated row. Returns the entity's component values, tagged with their
    /// types, in schema order. The identifier stays allocated and
    /// unpopulated (ready for a migration, or for a final `free`).
    fn detach_entity(&mut self, entity: Entity) -> (values: Vec<(u64, T)>)
        requires
            old(self).wf(),
            old(self).live(entity.0),
        ensures
            final(self).wf(),
            final(self).reserved_for(entity),
            final(self).entities.entities@.len() == old(self).entities.entities@.len(),
            final(self).entities.freed@ == old(self).entities.freed@,
            final(self).entities.count == old(self).entities.count,
            final(self).archetypes.archetypes@.len() == old(self).archetypes.archetypes@.len(),
            forall|i: int|
                0 <= i < old(self).archetypes.archetypes@.len() ==> {
                    let a1 = #[trigger] final(self).archetypes.archetypes@[i];
                    let a0 = old(self).archetypes.archetypes@[i];
                    a1.types@ == a0.types@ && a1.add == a0.add && a1.id == a0.id
                },
            values@.len() == old(self).schema_of(entity.0).len(),
            tags_of(values@) == old(self).schema_of(entity.0),
            distinct_tags(values@),
            forall|k: int|
                0 <= k < values@.len() ==> (#[trigger] values@[k]).0 == old(self).schema_of(
                    entity.0,
                )[k] && values@[k].1 == old(self).component_value(entity.0, values@[k].0),
            forall|e2: usize, t: u64|
                e2 != entity.0 ==> #[trigger] final(self).has_component_spec(e2, t) == old(self).has_component_spec(e2, t),
            forall|e2: usize, t: u64|
                #[trigger] old(self).has_component_spec(e2, t) && e2 != entity.0 ==> final(self).component_value(e2, t) == old(self).component_value(e2, t),
    {
        let eid = entity.id();
        let loc = match self.entities.get(entity) {
            Some(loc) => loc,
            None => vstd::pervasive::unreached(),
        };
        let ghost pre = *self;

        self.entities.entities.set(eid, Location::empty());

        let a = self.archetypes.get_by_id_mut(loc.id);
        let mut column_values = a.remove_row(loc.row);
        let rows_now = a.rows();

        let ghost displaced = pre.archetypes.archetypes@[loc.id.0 as int].entities@.last();

        if loc.row < rows_now {
            proof {
                assert(pre.archetypes.archetypes@[loc.id.0 as int].entities@[pre.archetypes.archetypes@[loc.id.0 as int].entities@.len() - 1]
                    == displaced);
                assert(pre.entities.entities@[displaced.0 as int] == (Location {
                    row: (pre.archetypes.archetypes@[loc.id.0 as int].entities@.len() - 1) as usize,
                    id: ArchetypeId(loc.id.0 as usize),
                }));
                assert(displaced.0 != entity.0);
            }
            let d = self.archetypes.get_by_id(loc.id).entities[loc.row];
            self.entities.entities.set(d.id(), Location { row: loc.row, id: loc.id });
        }

        proof {
            detach_restores(pre, *self, entity, loc);
        }

        let ghost done = *self;
        let mut values: Vec<(u64, T)> = Vec::new();
        let ghost n = pre.schema_of(entity.0).len() as int;
        let ghost cols = column_values@;
        let mut k: usize = column_values.len();
        while k > 0
            invariant
                *self == done,
                done.wf(),
                (loc.id.0 as int) < done.archetypes.archetypes@.len(),
                done.archetypes.archetypes@[loc.id.0 as int].types@ == pre.schema_of(entity.0),
                pre.schema_of(entity.0).len() == n,
                cols.len() == n,
                k <= n,
                column_values@ == cols.take(k as int),
                values@.len() == n - k,
                forall|m: int|
                    0 <= m < values@.len() ==> (#[trigger] values@[m]) == (
                        pre.schema_of(entity.0)[k + m],
                        cols[k + m],
                    ),
            decreases k,
        {
            let v = match column_values.pop() {
                Some(v) => v,
                None => vstd::pervasive::unreached(),
            };
            k = k - 1;
            let t = self.archetypes.get_by_id(loc.id).types[k];
            values.insert(0, (t, v));
        }

        proof {
            assert forall|k2: int|
                0 <= k2 < values@.len() implies (#[trigger] values@[k2]).0 == pre.schema_of(
                entity.0,
            )[k2] && values@[k2].1 == pre.component_value(entity.0, values@[k2].0) by {
                assert(values@[k2] == (pre.schema_of(entity.0)[k2], cols[k2]));
                let t = pre.schema_of(entity.0)[k2];
                assert(pre.schema_of(entity.0).contains(t));
                assert(pre.schema_of(entity.0).index_of(t) == k2) by {
                    let k3 = pre.schema_of(entity.0).index_of(t);
                    if k3 != k2 {
                        assert(pre.schema_of(entity.0)[k3] == pre.schema_of(entity.0)[k2]);
                        assert(sorted_strict(pre.schema_of(entity.0)));
                        assert(false);
                    }
                }
                assert(cols[k2] == pre.component_value(entity.0, t));
            }
            assert(tags_of(values@) =~= pre.schema_of(entity.0));
        }

        values
    }


    /// Destroy an entity: release its identifier for reuse and compact its
    /// row out of its archetype (swap-with-last, retargeting the displaced
    /// entity's recorded location). Returns the location the entity held, or
    /// `None` for an entity with no recorded location.
    pub fn remove_entity(&mut self, entity: Entity) -> (r: Option<Location>)
        requires
            old(self).wf(),
        ensures
            final(self).wf(),
            r == old(self).entities.spec_get(entity),
            !final(self).live(entity.0),
            old(self).entities.spec_get(entity) is None ==> *final(self) == *old(self),
            forall|e2: usize, t: u64|
                e2 != entity.0 ==> #[trigger] final(self).has_component_spec(e2, t) == old(self).has_component_spec(e2, t),
            forall|e2: usize, t: u64|
                #[trigger] old(self).has_component_spec(e2, t) && e2 != entity.0 ==> final(self).component_value(e2, t) == old(self).component_value(e2, t),
    {
        let loc = match self.entities.get(entity) {
            Some(loc) => loc,
            None => {
                return None;
            },
        };
        let ghost pre = *self;
        let _values = self.detach_entity(entity);
        let ghost mid = *self;
        let _freed_location = self.entities.free(entity);
        proof {
            assert(self.entities.wf());
            assert(self.archetypes == mid.archetypes);
            assert forall|e: int|
                0 <= e < self.entities.entities@.len() && !(
            #[trigger] self.entities.entities@[e]).is_empty_spec() implies {
                let l = self.entities.entities@[e];
                &&& (l.id.0 as int) < self.archetypes.archetypes@.len()
                &&& (l.row as int) < self.archetypes.archetypes@[l.id.0 as int].entities@.len()
                &&& self.archetypes.archetypes@[l.id.0 as int].entities@[l.row as int].0 == e
            } by {
                assert(self.entities.entities@[e] == mid.entities.entities@[e]);
            }
            assert forall|a: int, r2: int|
                0 <= a < self.archetypes.archetypes@.len() && 0 <= r2
                    < self.archetypes.archetypes@[a].entities@.len() implies {
                let e = #[trigger] self.archetypes.archetypes@[a].entities@[r2];
                &&& (e.0 as int) < self.entities.entities@.len()
                &&& self.entities.entities@[e.0 as int] == (Location {
                    row: r2 as usize,
                    id: ArchetypeId(a as usize),
                })
            } by {
                let e = mid.archetypes.archetypes@[a].entities@[r2];
                assert(mid.entities.entities@[e.0 as int] == (Location {
                    row: r2 as usize,
                    id: ArchetypeId(a as usize),
                }));
                assert(e.0 != entity.0);
                assert(self.entities.entities@[e.0 as int] == mid.entities.entities@[e.0 as int]);
            }
            assert(self.wf());
            assert forall|e2: usize, t: u64|
                e2 != entity.0 implies #[trigger] self.has_component_spec(e2, t)
                == pre.has_component_spec(e2, t) by {
                assert(mid.has_component_spec(e2, t) == pre.has_component_spec(e2, t));
                if (e2 as int) < self.entities.entities@.len() {
                    assert(self.entities.entities@[e2 as int] == mid.entities.entities@[e2 as int]);
                }
            }
            assert forall|e2: usize, t: u64|
                #[trigger] pre.has_component_spec(e2, t) && e2 != entity.0 implies self
                .component_value(e2, t) == pre.component_value(e2, t) by {
                assert(mid.component_value(e2, t) == pre.component_value(e2, t));
                assert(mid.has_component_spec(e2, t));
                let l = mid.entities.entities@[e2 as int];
                assert(self.entities.entities@[e2 as int] == l);
            }
        }
        Some(loc)
    }

    /// Add one component to a live entity, migrating it to the archetype
    /// whose schema extends its current one by the component's type. The
    /// memoized edge is consulted first and recorded on a miss. Adding a
    /// type the entity already has is refused.
    pub fn add_component(&mut self, entity: Entity, type_id: u64, component: T) -> (r: Result<
        (),
        EcsError,
    >)
        requires
            old(self).wf(),
        ensures
            final(self).wf(),
            !old(self).live(entity.0) ==> r == Err::<(), EcsError>(EcsError::EntityNotFound)
                && *final(self) == *old(self),
            old(self).live(entity.0) && old(self).schema_of(entity.0).contains(type_id) ==> r
                == Err::<(), EcsError>(EcsError::ComponentAlreadyPresent) && *final(self) == *old(self),
            old(self).live(entity.0) && !old(self).schema_of(entity.0).contains(type_id) ==> {
                &&& r == Ok::<(), EcsError>(())
                &&& final(self).live(entity.0)
                &&& schema_with(
                    old(self).schema_of(entity.0),
                    type_id,
                    final(self).schema_of(entity.0),
                )
                &&& final(self).component_value(entity.0, type_id) == component
                &&& forall|t: u64|
                    #[trigger] old(self).schema_of(entity.0).contains(t) ==> final(self).component_value(entity.0, t) == old(self).component_value(entity.0, t)
                &&& forall|e2: usize, t: u64|
                    e2 != entity.0 ==> #[trigger] final(self).has_component_spec(e2, t) == old(self).has_component_spec(e2, t)
                &&& forall|e2: usize, t: u64|
                    #[trigger] old(self).has_component_spec(e2, t) && e2 != entity.0 ==> final(self).component_value(e2, t) == old(self).component_value(e2, t)
            },
    {
        let loc = match self.entities.get(entity) {
            Some(loc) => loc,
            None => {
                return Err(EcsError::EntityNotFound);
            },
        };
        let edge = {
            let source = self.archetypes.get_by_id(loc.id);
            if source.has_component(type_id) {
                return Err(EcsError::ComponentAlreadyPresent);
            }
            source.edge_for_add(type_id)
        };

        let ghost pre = *self;
        let mut values = self.detach_entity(entity);
        values.push((type_id, component));
        let ghost vals = values@;
        let ghost mid = *self;

        proof {
            assert(distinct_tags(vals)) by {
                assert forall|k1: int, k2: int| 0 <= k1 < k2 < vals.len() implies vals[k1].0
                    != vals[k2].0 by {
                    if k2 < vals.len() - 1 {
                        assert(vals[k1].0 == pre.schema_of(entity.0)[k1]);
                        assert(vals[k2].0 == pre.schema_of(entity.0)[k2]);
                    } else {
                        assert(vals[k1].0 == pre.schema_of(entity.0)[k1]);
                        assert(pre.schema_of(entity.0).contains(pre.schema_of(entity.0)[k1]));
                    }
                }
            }
            assert forall|x: u64| #[trigger] tags_of(vals).contains(x) == (pre.schema_of(
                entity.0,
            ).contains(x) || x == type_id) by {
                if tags_of(vals).contains(x) {
                    let k = choose|k: int| 0 <= k < vals.len() && #[trigger] tags_of(vals)[k] == x;
                    if k < vals.len() - 1 {
                        assert(vals[k].0 == pre.schema_of(entity.0)[k]);
                        assert(pre.schema_of(entity.0).contains(x));
                    }
                }
                if pre.schema_of(entity.0).contains(x) {
                    let k = choose|k: int|
                        0 <= k < pre.schema_of(entity.0).len() && pre.schema_of(entity.0)[k] == x;
                    assert(tags_of(vals)[k] == x);
                    assert(tags_of(vals).contains(x));
                }
                if x == type_id {
                    assert(tags_of(vals)[vals.len() - 1] == x);
                    assert(tags_of(vals).contains(x));
                }
            }
        }

        let target = match edge {
            Some(target) => {
                proof {
                    assert(pre.archetypes.archetypes@[loc.id.0 as int].add.contents().dom().contains(type_id));
                    assert(schema_with(
                        pre.schema_of(entity.0),
                        type_id,
                        pre.archetypes.archetypes@[target.0 as int].types@,
                    ));
                    assert(mid.archetypes.archetypes@[target.0 as int].types@
                        == pre.archetypes.archetypes@[target.0 as int].types@);
                    assert(same_members(
                        mid.archetypes.archetypes@[target.0 as int].types@,
                        tags_of(vals),
                    ));
                }
                target
            },
            None => {
                let mut tags: Vec<u64> = Vec::new();
                let mut k: usize = 0;
                let m = values.len();
                while k < m
                    invariant
                        *self == mid,
                        m == values@.len(),
                        values@ == vals,
                        k <= m,
                        tags@.len() == k,
                        forall|i: int| 0 <= i < k ==> #[trigger] tags@[i] == vals[i].0,
                    decreases m - k,
                {
                    tags.push(values[k].0);
                    k = k + 1;
                }
                proof {
                    assert(tags@ =~= tags_of(vals));
                }
                let ghost before = *self;
                let target = self.archetype_for_schema(&tags);
                proof {
                    assert(self.archetypes.archetypes@[loc.id.0 as int].types@
                        == pre.schema_of(entity.0));
                    assert(schema_with(
                        pre.schema_of(entity.0),
                        type_id,
                        self.archetypes.archetypes@[target.0 as int].types@,
                    ));
                }
                let ghost before_edge = *self;
                let source = self.archetypes.get_by_id_mut(loc.id);
                source.insert_edge(type_id, target);
                proof {
                    edge_insert_restores(before_edge, *self, loc.id, type_id, target);
                    assert(self.entities == before.entities);
                    assert forall|e2: usize, t: u64| true implies #[trigger] self
                        .has_component_spec(e2, t) == before.has_component_spec(e2, t) && (
                    before.has_component_spec(e2, t) ==> self.component_value(e2, t)
                        == before.component_value(e2, t)) by {
                        if self.has_component_spec(e2, t) || before.has_component_spec(e2, t) {
                            let l = before.entities.entities@[e2 as int];
                            assert((l.id.0 as int) < before.archetypes.archetypes@.len());
                            assert(self.archetypes.archetypes@[l.id.0 as int].types@
                                == before.archetypes.archetypes@[l.id.0 as int].types@);
                            assert(self.archetypes.archetypes@[l.id.0 as int].components@
                                == before.archetypes.archetypes@[l.id.0 as int].components@);
                        }
                    }
                }
                target
            },
        };

        let ghost staged = *self;
        proof {
            assert(staged.entities == mid.entities);
            assert(staged.reserved_for(entity));
            assert forall|e2: usize, t: u64| true implies #[trigger] staged.has_component_spec(
                e2,
                t,
            ) == mid.has_component_spec(e2, t) && (mid.has_component_spec(e2, t)
                ==> staged.component_value(e2, t) == mid.component_value(e2, t)) by {
                if staged.has_component_spec(e2, t) || mid.has_component_spec(e2, t) {
                    let l = mid.entities.entities@[e2 as int];
                    assert((l.id.0 as int) < mid.archetypes.archetypes@.len());
                    assert(staged.archetypes.archetypes@[l.id.0 as int].types@
                        == mid.archetypes.archetypes@[l.id.0 as int].types@);
                    assert(staged.archetypes.archetypes@[l.id.0 as int].components@
                        == mid.archetypes.archetypes@[l.id.0 as int].components@);
                }
            }
        }
        self.place_row(entity, target, values);

        proof {
            assert(schema_with(
                pre.schema_of(entity.0),
                type_id,
                self.schema_of(entity.0),
            ));
            assert(self.component_value(entity.0, type_id) == component) by {
                assert(vals[vals.len() - 1] == (type_id, component));
            }
            assert forall|t: u64| #[trigger] pre.schema_of(entity.0).contains(t) implies self
                .component_value(entity.0, t) == pre.component_value(entity.0, t) by {
                let k = choose|k: int|
                    0 <= k < pre.schema_of(entity.0).len() && pre.schema_of(entity.0)[k] == t;
                assert(vals[k] == (t, pre.component_value(entity.0, t)));
                assert(self.component_value(entity.0, vals[k].0) == vals[k].1);
            }
            assert forall|e2: usize, t: u64|
                e2 != entity.0 implies #[trigger] self.has_component_spec(e2, t)
                == pre.has_component_spec(e2, t) by {
                assert(mid.has_component_spec(e2, t) == pre.has_component_spec(e2, t));
                assert(staged.has_component_spec(e2, t) == mid.has_component_spec(e2, t));
                assert(self.has_component_spec(e2, t) == staged.has_component_spec(e2, t));
            }
            assert forall|e2: usize, t: u64|
                #[trigger] pre.has_component_spec(e2, t) && e2 != entity.0 implies self
                .component_value(e2, t) == pre.component_value(e2, t) by {
                assert(mid.has_component_spec(e2, t) == pre.has_component_spec(e2, t));
                assert(mid.component_value(e2, t) == pre.component_value(e2, t));
                assert(staged.component_value(e2, t) == mid.component_value(e2, t));
                assert(staged.has_component_spec(e2, t));
                assert(self.component_value(e2, t) == staged.component_value(e2, t));
            }
        }

        Ok(())
    }

    /// Remove one component from a live entity, migrating it to the
    /// archetype whose schema lacks the component's type (possibly the empty
    /// schema). Removing a type the entity does not have is refused.
    pub fn remove_component(&mut self, entity: Entity, type_id: u64) -> (r: Result<(), EcsError>)
        requires
            old(self).wf(),
        ensures
            final(self).wf(),
            !old(self).live(entity.0) ==> r == Err::<(), EcsError>(EcsError::EntityNotFound)
                && *final(self) == *old(self),
            old(self).live(entity.0) && !old(self).schema_of(entity.0).contains(type_id) ==> r
                == Err::<(), EcsError>(EcsError::ComponentNotFound) && *final(self) == *old(self),
            old(self).live(entity.0) && old(self).schema_of(entity.0).contains(type_id) ==> {
                &&& r == Ok::<(), EcsError>(())
                &&& final(self).live(entity.0)
                &&& schema_without(
                    old(self).schema_of(entity.0),
                    type_id,
                    final(self).schema_of(entity.0),
                )
                &&& forall|t: u64|
                    #[trigger] old(self).schema_of(entity.0).contains(t) && t != type_id ==> final(self).component_value(entity.0, t) == old(self).component_value(entity.0, t)
                &&& forall|e2: usize, t: u64|
                    e2 != entity.0 ==> #[trigger] final(self).has_component_spec(e2, t) == old(self).has_component_spec(e2, t)
                &&& forall|e2: usize, t: u64|
                    #[trigger] old(self).has_component_spec(e2, t) && e2 != entity.0 ==> final(self).component_value(e2, t) == old(self).component_value(e2, t)
            },
    {
        let loc = match self.entities.get(entity) {
            Some(loc) => loc,
            None => {
                return Err(EcsError::EntityNotFound);
            },
        };
        {
            let source = self.archetypes.get_by_id(loc.id);
            if !source.has_component(type_id) {
                return Err(EcsError::ComponentNotFound);
            }
        }

        let ghost pre = *self;
        let mut values = self.detach_entity(entity);
        let ghost mid = *self;

        let mut kept: Vec<(u64, T)> = Vec::new();
        let mut tags: Vec<u64> = Vec::new();
        let ghost vals0 = values@;
        let mut k: usize = 0;
        let m = values.len();
        let ghost sch = pre.schema_of(entity.0);
        proof {
            assert forall|i: int|
                0 <= i < vals0.len() implies (#[trigger] vals0[i]).0 == sch[i] && vals0[i].1
                == pre.component_value(entity.0, vals0[i].0) by {
                assert(values@[i] == vals0[i]);
                assert((values@[i]).0 == sch[i]);
                assert(values@[i].1 == pre.component_value(entity.0, values@[i].0));
            }
        }
        while k < m
            invariant
                *self == mid,
                m == vals0.len(),
                values@ == vals0.skip(k as int),
                k <= m,
                sch == pre.schema_of(entity.0),
                vals0.len() == sch.len(),
                forall|i: int| 0 <= i < vals0.len() ==> (#[trigger] vals0[i]).0 == sch[i],
                forall|i: int|
                    0 <= i < vals0.len() ==> (#[trigger] vals0[i]).1 == pre.component_value(
                        entity.0,
                        vals0[i].0,
                    ),
                sorted_strict(sch),
                tags@.len() == kept@.len(),
                forall|i: int| 0 <= i < kept@.len() ==> #[trigger] tags@[i] == kept@[i].0,
                forall|i: int|
                    0 <= i < kept@.len() ==> (#[trigger] kept@[i]).0 != type_id && vals0.contains(
                        kept@[i],
                    ),
                forall|x: u64|
                    #[trigger] tags_of(kept@).contains(x) == (sch.take(k as int).contains(x) && x
                        != type_id),
                forall|i: int, j: int|
                    0 <= i < j < kept@.len() ==> kept@[i].0 != kept@[j].0,
                forall|x: u64|
                    #[trigger] sch.take(k as int).contains(x) && x != type_id ==> exists|i: int|
                        0 <= i < kept@.len() && (#[trigger] kept@[i]) == (
                            x,
                            pre.component_value(entity.0, x),
                        ),
            decreases m - k,
        {
            let ghost kpre = kept@;
            let p = values.remove(0);
            proof {
                assert(p == vals0[k as int]);
                assert(values@ =~= vals0.skip(k + 1));
                assert(sch.take(k + 1) =~= sch.take(k as int).push(sch[k as int]));
            }
            if p.0 != type_id {
                let t = p.0;
                tags.push(t);
                kept.push(p);
                proof {
                    assert(vals0.contains(vals0[k as int]));
                    assert(vals0[k as int].1 == pre.component_value(entity.0, sch[k as int]));
                    assert forall|i: int, j: int|
                        0 <= i < j < kept@.len() implies kept@[i].0 != kept@[j].0 by {
                        if j == kept@.len() - 1 {
                            assert(kept@[i] == kpre[i]);
                            assert(tags_of(kpre)[i] == kpre[i].0);
                            assert(tags_of(kpre).contains(kpre[i].0));
                            assert(sch.take(k as int).contains(kpre[i].0));
                            let w = choose|w: int|
                                0 <= w < k && #[trigger] sch.take(k as int)[w] == kpre[i].0;
                            assert(sch[w] == kpre[i].0);
                            assert(sch[w] < sch[k as int]);
                        } else {
                            assert(kept@[i] == kpre[i] && kept@[j] == kpre[j]);
                        }
                    }
                    assert forall|x: u64|
                        #[trigger] tags_of(kept@).contains(x) == (sch.take(k + 1).contains(x) && x
                            != type_id) by {
                        membership_after_push(kpre, kept@, sch, x, t, k as int, type_id);
                    }
                    assert forall|x: u64|
                        #[trigger] sch.take(k + 1).contains(x) && x != type_id implies exists|i: int|
                            0 <= i < kept@.len() && (#[trigger] kept@[i]) == (
                                x,
                                pre.component_value(entity.0, x),
                            ) by {
                        let w = choose|w: int| 0 <= w < k + 1 && #[trigger] sch.take(k + 1)[w] == x;
                        if w < k {
                            assert(sch.take(k as int).contains(x));
                            let i = choose|i: int|
                                0 <= i < kpre.len() && (#[trigger] kpre[i]) == (
                                    x,
                                    pre.component_value(entity.0, x),
                                );
                            assert(kept@[i] == kpre[i]);
                        } else {
                            assert(kept@[kept@.len() - 1] == (
                                x,
                                pre.component_value(entity.0, x),
                            ));
                        }
                    }
                }
            } else {
                proof {
                    assert(sch[k as int] == type_id);
                    assert forall|x: u64|
                        #[trigger] tags_of(kept@).contains(x) == (sch.take(k + 1).contains(x) && x
                            != type_id) by {
                        if sch.take(k + 1).contains(x) && x != type_id {
                            let w = choose|w: int|
                                0 <= w < k + 1 && #[trigger] sch.take(k + 1)[w] == x;
                            assert(w < k);
                            assert(sch.take(k as int)[w] == x);
                        }
                        if sch.take(k as int).contains(x) {
                            let w = choose|w: int|
                                0 <= w < k && #[trigger] sch.take(k as int)[w] == x;
                            assert(sch.take(k + 1)[w] == x);
                        }
                    }
                    assert forall|x: u64|
                        #[trigger] sch.take(k + 1).contains(x) && x != type_id implies exists|
                        i: int|
                        0 <= i < kept@.len() && (#[trigger] kept@[i]) == (
                            x,
                            pre.component_value(entity.0, x),
                        ) by {
                        let w = choose|w: int| 0 <= w < k + 1 && #[trigger] sch.take(k + 1)[w] == x;
                        assert(w < k);
                        assert(sch.take(k as int)[w] == x);
                        assert(sch.take(k as int).contains(x));
                    }
                }
            }
            k = k + 1;
        }

        proof {
            assert(sch.take(m as int) =~= sch);
            assert(distinct_tags(kept@));
            assert(tags@ =~= tags_of(kept@));
        }

        let target = self.archetype_for_schema(&tags);

        let ghost staged = *self;
        proof {
            assert(staged.entities == mid.entities);
            assert(staged.reserved_for(entity));
            assert forall|e2: usize, t: u64| true implies #[trigger] staged.has_component_spec(
                e2,
                t,
            ) == mid.has_component_spec(e2, t) && (mid.has_component_spec(e2, t)
                ==> staged.component_value(e2, t) == mid.component_value(e2, t)) by {
                if staged.has_component_spec(e2, t) || mid.has_component_spec(e2, t) {
                    let l = mid.entities.entities@[e2 as int];
                    assert((l.id.0 as int) < mid.archetypes.archetypes@.len());
                    assert(staged.archetypes.archetypes@[l.id.0 as int] == mid.archetypes.archetypes@[l.id.0 as int]);
                }
            }
        }
        let ghost keptv = kept@;
        self.place_row(entity, target, kept);

        proof {
            assert(schema_without(pre.schema_of(entity.0), type_id, self.schema_of(entity.0)));
            assert forall|t: u64|
                #[trigger] pre.schema_of(entity.0).contains(t) && t != type_id implies self
                .component_value(entity.0, t) == pre.component_value(entity.0, t) by {
                assert(sch.take(m as int).contains(t));
                let i = choose|i: int|
                    0 <= i < keptv.len() && (#[trigger] keptv[i]) == (
                        t,
                        pre.component_value(entity.0, t),
                    );
                assert(keptv[i].0 == t);
                assert(self.component_value(entity.0, keptv[i].0) == keptv[i].1);
            }
            assert forall|e2: usize, t: u64|
                e2 != entity.0 implies #[trigger] self.has_component_spec(e2, t)
                == pre.has_component_spec(e2, t) by {
                assert(mid.has_component_spec(e2, t) == pre.has_component_spec(e2, t));
                assert(staged.has_component_spec(e2, t) == mid.has_component_spec(e2, t));
                assert(self.has_component_spec(e2, t) == staged.has_component_spec(e2, t));
            }
            assert forall|e2: usize, t: u64|
                #[trigger] pre.has_component_spec(e2, t) && e2 != entity.0 implies self
                .component_value(e2, t) == pre.component_value(e2, t) by {
                assert(mid.has_component_spec(e2, t) == pre.has_component_spec(e2, t));
                assert(mid.component_value(e2, t) == pre.component_value(e2, t));
                assert(staged.component_value(e2, t) == mid.component_value(e2, t));
                assert(staged.has_component_spec(e2, t));
                assert(self.component_value(e2, t) == staged.component_value(e2, t));
            }
        }

        Ok(())
    }


    /// The column of component type `t` in archetype `i`, or empty when the
    /// schema lacks `t`.
    pub open spec fn archetype_column(self, i: int, t: u64) -> Seq<T> {
        let a = self.archetypes.archetypes@[i];
        if a.types@.contains(t) {
            a.components@[a.types@.index_of(t)]@
        } else {
            Seq::empty()
        }
    }

    /// The entities of archetype `i`, or empty when its schema lacks `t`.
    pub open spec fn archetype_rows(self, i: int, t: u64) -> Seq<Entity> {
        if self.archetypes.archetypes@[i].types@.contains(t) {
            self.archetypes.archetypes@[i].entities@
        } else {
            Seq::empty()
        }
    }

    /// What a query for `t` returns, restricted to the first `n` archetypes.
    pub open spec fn query_model_upto(self, t: u64, n: int) -> Seq<T>
        decreases n,
    {
        if n <= 0 {
            Seq::empty()
        } else {
            self.query_model_upto(t, n - 1) + self.archetype_column(n - 1, t)
        }
    }

    /// Every stored value of component type `t`, in registry-then-row order:
    /// what a query for `t` returns.
    pub open spec fn query_model(self, t: u64) -> Seq<T> {
        self.query_model_upto(t, self.archetypes.archetypes@.len() as int)
    }

    /// The entities owning each slot of [`World::query_model`], in the same
    /// order.
    pub open spec fn query_entities_upto(self, t: u64, n: int) -> Seq<Entity>
        decreases n,
    {
        if n <= 0 {
            Seq::empty()
        } else {
            self.query_entities_upto(t, n - 1) + self.archetype_rows(n - 1, t)
        }
    }

    pub open spec fn query_entities(self, t: u64) -> Seq<Entity> {
        self.query_entities_upto(t, self.archetypes.archetypes@.len() as int)
    }

    /// The value stored for the entity under component type `t`, or `None`
    /// for a dead entity or one whose schema lacks `t`.
    pub fn get(&self, entity: Entity, type_id: u64) -> (r: Option<&T>)
        requires
            self.wf(),
        ensures
            match r {
                Some(v) => self.has_component_spec(entity.0, type_id) && *v
                    == self.component_value(entity.0, type_id),
                None => !self.has_component_spec(entity.0, type_id),
            },
    {
        let loc = match self.entities.get(entity) {
            Some(loc) => loc,
            None => {
                return None;
            },
        };
        let a = self.archetypes.get_by_id(loc.id);
        match a.get_component_index(type_id) {
            Some(ci) => Some(&a.components[ci.column][loc.row]),
            None => None,
        }
    }

    /// Mutable access to the value stored for the entity under component
    /// type `t`. Writing through the reference changes that one value and
    /// nothing else.
    pub fn get_mut(&mut self, entity: Entity, type_id: u64) -> (r: Option<&mut T>)
        requires
            old(self).wf(),
        ensures
            match r {
                Some(m) => {
                    &&& old(self).has_component_spec(entity.0, type_id)
                    &&& *m == old(self).component_value(entity.0, type_id)
                    &&& final(self).wf()
                    &&& final(self).entities == old(self).entities
                    &&& forall|e2: usize, t: u64|
                        #[trigger] final(self).has_component_spec(e2, t) == old(self).has_component_spec(e2, t)
                    &&& final(self).component_value(entity.0, type_id) == *final(m)
                    &&& forall|e2: usize, t: u64|
                        #[trigger] old(self).has_component_spec(e2, t) && !(e2 == entity.0 && t
                            == type_id) ==> final(self).component_value(e2, t) == old(self).component_value(e2, t)
                },
                None => !old(self).has_component_spec(entity.0, type_id) && *final(self) == *old(self),
            },
    {
        let loc = match self.entities.get(entity) {
            Some(loc) => loc,
            None => {
                return None;
            },
        };
        let ghost pre = *self;
        let index = {
            let a = self.archetypes.get_by_id(loc.id);
            match a.get_component_index(type_id) {
                Some(ci) => ci.column,
                None => {
                    return None;
                },
            }
        };
        let a = self.archetypes.get_by_id_mut(loc.id);
        let m = &mut a.components[index][loc.row];
        proof {
            value_update_restores(
                pre,
                after_borrow(*self),
                entity,
                type_id,
                loc,
                index as int,
                *final(m),
            );
        }
        Some(m)
    }

    /// Every stored value of component type `t`: a linear scan over all
    /// archetypes whose schema holds `t`, flattening the matching columns in
    /// registry order.
    pub fn query(&self, type_id: u64) -> (r: Vec<&T>)
        requires
            self.wf(),
        ensures
            r@.len() == self.query_model(type_id).len(),
            forall|i: int| 0 <= i < r@.len() ==> *(#[trigger] r@[i]) == self.query_model(type_id)[i],
    {
        let mut out: Vec<&T> = Vec::new();
        let n = self.archetypes.len();
        let mut i: usize = 0;
        while i < n
            invariant
                self.wf(),
                n == self.archetypes.archetypes@.len(),
                i <= n,
                out@.len() == self.query_model_upto(type_id, i as int).len(),
                forall|m: int|
                    0 <= m < out@.len() ==> *(#[trigger] out@[m]) == self.query_model_upto(
                        type_id,
                        i as int,
                    )[m],
            decreases n - i,
        {
            let ghost prefix = self.query_model_upto(type_id, i as int);
            let a = self.archetypes.get_by_index(i);
            match a.get_component_index(type_id) {
                Some(ci) => {
                    let column = &a.components[ci.column];
                    let rows = column.len();
                    let mut rix: usize = 0;
                    while rix < rows
                        invariant
                            rows == column@.len(),
                            rix <= rows,
                            out@.len() == prefix.len() + rix,
                            forall|m: int|
                                0 <= m < prefix.len() ==> *(#[trigger] out@[m]) == prefix[m],
                            forall|m: int|
                                0 <= m < rix ==> *(#[trigger] out@[prefix.len() + m]) == column@[m],
                        decreases rows - rix,
                    {
                        out.push(&column[rix]);
                        rix = rix + 1;
                    }
                    proof {
                        assert(self.archetype_column(i as int, type_id) == column@);
                        assert(self.query_model_upto(type_id, i + 1) == prefix + column@);
                        assert forall|m: int|
                            0 <= m < out@.len() implies *(#[trigger] out@[m])
                            == self.query_model_upto(type_id, i + 1)[m] by {
                            if m < prefix.len() {
                                assert((prefix + column@)[m] == prefix[m]);
                            } else {
                                assert((prefix + column@)[m] == column@[m - prefix.len()]);
                                assert(*out@[prefix.len() + (m - prefix.len())] == column@[m
                                    - prefix.len()]);
                            }
                        }
                    }
                },
                None => {
                    proof {
                        assert(self.archetype_column(i as int, type_id) == Seq::<T>::empty());
                        assert(self.query_model_upto(type_id, i + 1) =~= prefix);
                    }
                },
            }
            i = i + 1;
        }
        out
    }

    /// The first archetype (in registry order) whose schema holds `t`.
    pub open spec fn first_match(self, t: u64) -> int {
        choose|i: int|
            0 <= i < self.archetypes.archetypes@.len()
                && (#[trigger] self.archetypes.archetypes@[i]).types@.contains(t) && (forall|j: int|
                0 <= j < i ==> !(#[trigger] self.archetypes.archetypes@[j]).types@.contains(t))
    }

    /// Some archetype's schema holds `t`.
    pub open spec fn has_match(self, t: u64) -> bool {
        exists|i: int|
            0 <= i < self.archetypes.archetypes@.len()
                && (#[trigger] self.archetypes.archetypes@[i]).types@.contains(t)
    }

    /// The first stored value of component type `t`, from the first
    /// archetype whose schema holds `t`; that archetype must have a row.
    #[verifier::rlimit(60)]
    pub fn query_single(&self, type_id: u64) -> (r: &T)
        requires
            self.wf(),
            self.has_match(type_id),
            self.archetypes.archetypes@[self.first_match(type_id)].entities@.len() > 0,
        ensures
            *r == self.archetype_column(self.first_match(type_id), type_id)[0],
    {
        let n = self.archetypes.len();
        let mut i: usize = 0;
        loop
            invariant
                self.wf(),
                self.has_match(type_id),
                self.archetypes.archetypes@[self.first_match(type_id)].entities@.len() > 0,
                n == self.archetypes.archetypes@.len(),
                i < n,
                forall|j: int|
                    0 <= j < i ==> !(#[trigger] self.archetypes.archetypes@[j]).types@.contains(
                        type_id,
                    ),
                exists|w: int|
                    i <= w < n && (#[trigger] self.archetypes.archetypes@[w]).types@.contains(
                        type_id,
                    ),
            decreases n - i,
        {
            let a = self.archetypes.get_by_index(i);
            if a.has_component(type_id) {
                proof {
                    lemma_first_match_is(*self, type_id, i as int);
                }
                return a.get_single(type_id);
            }
            proof {
                let w = choose|w: int|
                    i <= w < n && (#[trigger] self.archetypes.archetypes@[w]).types@.contains(
                        type_id,
                    );
                assert(w != i);
            }
            i = i + 1;
        }
    }

    /// Mutable access to the first stored value of component type `t`.
    /// Writing through the reference changes that one value -- the component
    /// of the entity in the first matching archetype's first row -- and
    /// nothing else.
    #[verifier::rlimit(60)]
    pub fn query_single_mut(&mut self, type_id: u64) -> (r: &mut T)
        requires
            old(self).wf(),
            old(self).has_match(type_id),
            old(self).archetypes.archetypes@[old(self).first_match(type_id)].entities@.len() > 0,
        ensures
            *r == old(self).archetype_column(old(self).first_match(type_id), type_id)[0],
            final(self).wf(),
            final(self).entities == old(self).entities,
            ({
                let owner = old(self).archetypes.archetypes@[old(self).first_match(
                    type_id,
                )].entities@[0];
                &&& old(self).has_component_spec(owner.0, type_id)
                &&& *r == old(self).component_value(owner.0, type_id)
                &&& final(self).component_value(owner.0, type_id) == *final(r)
                &&& forall|e2: usize, t: u64|
                    #[trigger] final(self).has_component_spec(e2, t) == old(self).has_component_spec(e2, t)
                &&& forall|e2: usize, t: u64|
                    #[trigger] old(self).has_component_spec(e2, t) && !(e2 == owner.0 && t
                        == type_id) ==> final(self).component_value(e2, t) == old(self).component_value(e2, t)
            }),
    {
        let n = self.archetypes.len();
        let mut i: usize = 0;
        loop
            invariant
                *self == *old(self),
                old(self).wf(),
                old(self).has_match(type_id),
                old(self).archetypes.archetypes@[old(self).first_match(type_id)].entities@.len()
                    > 0,
                n == self.archetypes.archetypes@.len(),
                i < n,
                forall|j: int|
                    0 <= j < i ==> !(#[trigger] self.archetypes.archetypes@[j]).types@.contains(
                        type_id,
                    ),
                exists|w: int|
                    i <= w < n && (#[trigger] self.archetypes.archetypes@[w]).types@.contains(
                        type_id,
                    ),
            decreases n - i,
        {
            let found = {
                let a = self.archetypes.get_by_index(i);
                a.has_component(type_id)
            };
            if found {
                proof {
                    lemma_first_match_is(*self, type_id, i as int);
                }
                let ghost pre = *self;
                let ghost owner = pre.archetypes.archetypes@[i as int].entities@[0];
                let id = ArchetypeId(i);
                let a = self.archetypes.get_by_id_mut(id);
                let index = match a.get_component_index(type_id) {
                    Some(ci) => ci.column,
                    None => vstd::pervasive::unreached(),
                };
                let m = &mut a.components[index][0];
                proof {
                    assert(pre.entities.entities@[owner.0 as int] == (Location {
                        row: 0 as usize,
                        id: ArchetypeId(i as usize),
                    }));
                    value_update_restores(
                        pre,
                        after_borrow(*self),
                        owner,
                        type_id,
                        Location { row: 0, id },
                        index as int,
                        *final(m),
                    );
                }
                return m;
            }
            proof {
                let w = choose|w: int|
                    i <= w < n && (#[trigger] self.archetypes.archetypes@[w]).types@.contains(
                        type_id,
                    );
                assert(w != i);
            }
            i = i + 1;
        }
    }

    /// Create one entity from a batch of `(type identifier, value)` pairs:
    /// reserve an identifier, resolve or create the archetype of the batch's
    /// canonical schema, append the values as one row, and record the
    /// location. A batch naming the same type twice is rejected whole (the
    /// reserved identifier stays unpopulated).
    pub fn spawn(&mut self, components: Vec<(u64, T)>) -> (r: Result<Entity, EcsError>)
        requires
            old(self).wf(),
            old(self).entities.can_reserve(),
        ensures
            final(self).wf(),
            !distinct_tags(components@) ==> r == Err::<Entity, EcsError>(
                EcsError::DuplicateComponentType,
            ) && final(self).archetypes == old(self).archetypes && Entities::reserve_relation(
                old(self).entities,
                final(self).entities,
                Entity(old(self).entities.spec_reserve_id()),
            ),
            distinct_tags(components@) ==> {
                let eid = old(self).entities.spec_reserve_id();
                &&& r == Ok::<Entity, EcsError>(Entity(eid))
                &&& final(self).live(eid)
                &&& sorted_strict(final(self).schema_of(eid))
                &&& same_members(final(self).schema_of(eid), tags_of(components@))
                &&& forall|k: int|
                    0 <= k < components@.len() ==> final(self).component_value(
                        eid,
                        (#[trigger] components@[k]).0,
                    ) == components@[k].1
                &&& forall|e2: usize, t: u64|
                    #[trigger] old(self).has_component_spec(e2, t) && e2 != eid ==> final(self).has_component_spec(e2, t) && final(self).component_value(e2, t) == old(self).component_value(e2, t)
            },
    {
        let ghost pre = *self;
        let entity = self.entities.reserve_entity();
        proof {
            reserve_leaves_reserved(pre.entities, self.entities, entity);
            assert forall|e2: usize, t: u64|
                #[trigger] pre.has_component_spec(e2, t) implies e2 != entity.0 && self
                .has_component_spec(e2, t) && self.component_value(e2, t) == pre.component_value(
                e2,
                t,
            ) by {
                assert(pre.entities.entities@[e2 as int] == self.entities.entities@[e2 as int]);
            }
        }
        self.spawn_at(entity, components)
    }

    /// Begin incremental construction of one entity: the identifier is
    /// reserved now, components accumulate in the builder, and the schema is
    /// resolved only when the builder commits.
    pub fn create_entity(&mut self) -> (b: EntityBuilder<T>)
        requires
            old(self).wf(),
            old(self).entities.can_reserve(),
        ensures
            final(self).wf(),
            final(self).archetypes == old(self).archetypes,
            final(self).reserved_for(b.entity),
            b.entity.0 == old(self).entities.spec_reserve_id(),
            b.components@.len() == 0,
            forall|e2: usize, t: u64|
                #[trigger] old(self).has_component_spec(e2, t) ==> e2 != b.entity.0 && final(self).has_component_spec(e2, t) && final(self).component_value(e2, t) == old(self).component_value(e2, t),
    {
        let ghost pre = *self;
        let entity = self.entities.reserve_entity();
        proof {
            reserve_leaves_reserved(pre.entities, self.entities, entity);
            assert forall|e2: usize, t: u64|
                #[trigger] pre.has_component_spec(e2, t) implies e2 != entity.0 && self
                .has_component_spec(e2, t) && self.component_value(e2, t) == pre.component_value(
                e2,
                t,
            ) by {
                assert(pre.entities.entities@[e2 as int] == self.entities.entities@[e2 as int]);
            }
        }
        EntityBuilder { entity, components: Vec::new() }
    }
}

/// Accumulates typed values for one entity before a single commit; the
/// entity's schema is only known (and canonicalized) at commit time.
pub struct EntityBuilder<T> {
    pub entity: Entity,
    pub components: Vec<(u64, T)>,
}

impl<T> EntityBuilder<T> {
    /// Add one component value, tagged with its type identifier.
    pub fn with(self, type_id: u64, component: T) -> (r: Self)
        ensures
            r.entity == self.entity,
            r.components@ == self.components@.push((type_id, component)),
    {
        let mut components = self.components;
        components.push((type_id, component));
        Self { entity: self.entity, components }
    }

    /// Commit: place the reserved entity into the archetype matching the
    /// accumulated component set.
    pub fn build(self, world: &mut World<T>) -> (r: Result<Entity, EcsError>)
        requires
            old(world).wf(),
            old(world).reserved_for(self.entity),
        ensures
            final(world).wf(),
            !distinct_tags(self.components@) ==> r == Err::<Entity, EcsError>(
                EcsError::DuplicateComponentType,
            ) && *final(world) == *old(world),
            distinct_tags(self.components@) ==> {
                &&& r == Ok::<Entity, EcsError>(self.entity)
                &&& final(world).live(self.entity.0)
                &&& sorted_strict(final(world).schema_of(self.entity.0))
                &&& same_members(final(world).schema_of(self.entity.0), tags_of(self.components@))
                &&& forall|k: int|
                    0 <= k < self.components@.len() ==> final(world).component_value(
                        self.entity.0,
                        (#[trigger] self.components@[k]).0,
                    ) == self.components@[k].1
                &&& forall|e2: usize, t: u64|
                    #[trigger] old(world).has_component_spec(e2, t) && e2 != self.entity.0
                        ==> final(world).has_component_spec(e2, t) && final(world).component_value(e2, t) == old(world).component_value(e2, t)
            },
    {
        world.spawn_at(self.entity, self.components)
    }
}

/// A fresh reservation hands out an identifier that is safe to populate:
/// covered, empty, below the high-water mark, and off the free stack.
proof fn reserve_leaves_reserved(pre: Entities, post: Entities, r: Entity)
    requires
        pre.wf(),
        post.wf(),
        Entities::reserve_relation(pre, post, r),
        post.spec_get(r) is None,
        r.0 < post.count,
    ensures
        !((r.0 as int) < post.entities@.len() && !post.entities@[r.0 as int].is_empty_spec()),
        (r.0 as int) < post.entities@.len(),
        forall|i: int| 0 <= i < post.freed@.len() ==> (#[trigger] post.freed@[i]) != r.0,
{
    if pre.freed@.len() > 0 {
        assert(r.0 == pre.freed@.last());
        assert forall|i: int| 0 <= i < post.freed@.len() implies (#[trigger] post.freed@[i])
            != r.0 by {
            assert(post.freed@[i] == pre.freed@[i]);
            assert(pre.freed@[i] != pre.freed@[pre.freed@.len() - 1]);
        }
    } else {
        assert(r.0 == pre.adjusted_count());
        assert forall|i: int| 0 <= i < post.freed@.len() implies (#[trigger] post.freed@[i])
            != r.0 by {
            assert(pre.freed@[i] < pre.count);
        }
    }
}

/// Slot `jj` of `ordered` carries the batch value whose tag is schema
/// member `jj`.
pub open spec fn check_slot<T>(row: Seq<(u64, T)>, schema: Seq<u64>, ordered: Seq<T>, jj: int) -> bool {
    let k = tag_index(row, schema[jj]);
    &&& 0 <= k < row.len()
    &&& row[k].0 == schema[jj]
    &&& ordered[jj] == row[k].1
}

/// The first `j` slots of `ordered` carry, for each schema position, the
/// batch value whose tag is that schema member.
pub open spec fn ordered_prefix_ok<T>(
    row: Seq<(u64, T)>,
    schema: Seq<u64>,
    ordered: Seq<T>,
    j: int,
) -> bool {
    forall|jj: int| 0 <= jj < j ==> #[trigger] check_slot(row, schema, ordered, jj)
}

/// Extending a correctly ordered prefix by the value for the next schema
/// member keeps it correctly ordered.
proof fn lemma_prefix_push<T>(row: Seq<(u64, T)>, schema: Seq<u64>, ordered: Seq<T>, v: T, j: int)
    requires
        ordered_prefix_ok(row, schema, ordered, j),
        0 <= j < schema.len(),
        ordered.len() == j,
        ({
            let k = tag_index(row, schema[j]);
            &&& 0 <= k < row.len()
            &&& row[k].0 == schema[j]
            &&& v == row[k].1
        }),
    ensures
        ordered_prefix_ok(row, schema, ordered.push(v), j + 1),
{
    assert forall|jj: int|
        0 <= jj < j + 1 implies #[trigger] check_slot(row, schema, ordered.push(v), jj) by {
        if jj < j {
            assert(ordered.push(v)[jj] == ordered[jj]);
            assert(check_slot(row, schema, ordered, jj));
        } else {
            assert(ordered.push(v)[jj] == v);
        }
    }
}

/// Reorder a batch of tagged values into schema (column) order: slot `j` of
/// the result carries the batch value whose tag is `schema[j]`.
fn order_by_schema<T>(schema: &Vec<u64>, row: Vec<(u64, T)>) -> (r: Vec<T>)
    requires
        distinct_tags(row@),
        sorted_strict(schema@),
        same_members(schema@, tags_of(row@)),
    ensures
        r@.len() == schema@.len(),
        ordered_prefix_ok(row@, schema@, r@, schema@.len() as int),
{
    let ghost row0 = row@;

    let mut tags: Vec<u64> = Vec::new();
    let mut slots: Vec<Option<T>> = Vec::new();
    let mut row = row;
    while row.len() > 0
        invariant
            tags@.len() == slots@.len(),
            tags@.len() + row@.len() == row0.len(),
            row@ == row0.skip(tags@.len() as int),
            forall|i: int|
                0 <= i < tags@.len() ==> #[trigger] tags@[i] == row0[i].0 && slots@[i] == Some(
                    row0[i].1,
                ),
        decreases row@.len(),
    {
        let ghost done = tags@.len() as int;
        let p = row.remove(0);
        proof {
            assert(p == row0[done]);
            assert(row@ =~= row0.skip(done + 1));
        }
        tags.push(p.0);
        slots.push(Some(p.1));
    }

    proof {
        assert(schema@.take(0) =~= Seq::<u64>::empty());
        assert forall|i: int| 0 <= i < slots@.len() implies #[trigger] slots@[i] == Some(
            row0[i].1,
        ) by {
            assert(tags@[i] == row0[i].0);
        }
    }
    let mut ordered: Vec<T> = Vec::new();
    let mut j: usize = 0;
    while j < schema.len()
        invariant
            distinct_tags(row0),
            sorted_strict(schema@),
            same_members(schema@, tags_of(row0)),
            tags@.len() == row0.len(),
            slots@.len() == row0.len(),
            forall|i: int| 0 <= i < tags@.len() ==> #[trigger] tags@[i] == row0[i].0,
            j <= schema@.len(),
            ordered@.len() == j,
            ordered_prefix_ok(row0, schema@, ordered@, j as int),
            forall|i: int|
                0 <= i < slots@.len() ==> #[trigger] slots@[i] == (if schema@.take(
                    j as int,
                ).contains(row0[i].0) {
                    None::<T>
                } else {
                    Some(row0[i].1)
                }),
        decreases schema@.len() - j,
    {
        let t = schema[j];
        proof {
            assert(schema@[j as int] == t);
            assert(schema@.contains(t));
            assert(tags_of(row0).contains(t));
            let w = choose|w: int| 0 <= w < tags_of(row0).len() && tags_of(row0)[w] == t;
            assert(row0[w].0 == t);
            assert(tags@[w] == t);
        }
        proof {
            assert(tags.len() <= usize::MAX);
        }
        let mut k: usize = 0;
        while tags[k] != t
            invariant
                tags@.len() == row0.len(),
                tags@.len() <= usize::MAX,
                k < tags@.len(),
                exists|w: int| k <= w < tags@.len() && tags@[w] == t,
                forall|m: int| 0 <= m < k ==> tags@[m] != t,
            decreases tags@.len() - k,
        {
            proof {
                let w = choose|w: int| k <= w < tags@.len() && tags@[w] == t;
                assert(w != k);
                assert(k + 1 <= w < tags@.len() && tags@[w] == t);
            }
            k = k + 1;
        }
        proof {
            assert(tags@[k as int] == t);
            assert(row0[k as int].0 == t);
            let ci = tag_index(row0, t);
            assert(0 <= ci < row0.len() && row0[ci].0 == t);
            if ci != k {
                assert(row0[ci].0 != row0[k as int].0);
            }
            assert(ci == k);
            if schema@.take(j as int).contains(t) {
                let m = choose|m: int| 0 <= m < j && schema@.take(j as int)[m] == t;
                assert(schema@[m] == schema@[j as int]);
            }
            assert(slots@[k as int] == Some(row0[k as int].1));
        }
        let ghost slots_pre = slots@;
        let mut tmp: Option<T> = None;
        slots.set_and_swap(k, &mut tmp);
        match tmp {
            Some(v) => {
                proof {
                    assert(v == row0[k as int].1);
                    assert(tag_index(row0, schema@[j as int]) == k as int);
                    lemma_prefix_push(row0, schema@, ordered@, v, j as int);
                }
                ordered.push(v);
            },
            None => {
                proof {
                    assert(false);
                }
            },
        }
        j = j + 1;
        proof {
            assert(ordered_prefix_ok(row0, schema@, ordered@, j as int));
            assert forall|i: int|
                0 <= i < slots@.len() implies #[trigger] slots@[i] == (if schema@.take(
                j as int,
            ).contains(row0[i].0) {
                None::<T>
            } else {
                Some(row0[i].1)
            }) by {
                assert(schema@.take(j as int) =~= schema@.take(j - 1).push(t));
                if i != k {
                    assert(slots@[i] == slots_pre[i]);
                    if schema@.take(j as int).contains(row0[i].0) {
                        let m = choose|m: int|
                            0 <= m < j && schema@.take(j as int)[m] == row0[i].0;
                        if m == j - 1 {
                            assert(row0[i].0 == t);
                            assert(row0[i].0 == row0[k as int].0);
                        } else {
                            assert(schema@.take(j as int)[m] == schema@.take(j - 1)[m]);
                            assert(schema@.take(j - 1).contains(row0[i].0));
                        }
                    } else {
                        assert(!schema@.take(j - 1).contains(row0[i].0)) by {
                            if schema@.take(j - 1).contains(row0[i].0) {
                                let m2 = choose|m2: int|
                                    0 <= m2 < j - 1 && #[trigger] schema@.take(j - 1)[m2]
                                        == row0[i].0;
                                assert(schema@.take(j as int)[m2] == row0[i].0);
                            }
                        }
                    }
                } else {
                    assert(schema@.take(j as int)[j - 1] == t);
                    assert(schema@.take(j as int).contains(row0[i].0));
                }
            }
        }
    }
    ordered
}

/// After a spawn's append and location write, the engine's global invariant
/// holds again and the new row carries exactly the batch's values.
#[verifier::rlimit(60)]
proof fn spawn_at_restores<T>(
    pre: World<T>,
    mid: World<T>,
    post: World<T>,
    entity: Entity,
    target: ArchetypeId,
    row: usize,
    components: Seq<(u64, T)>,
    ordered: Seq<T>,
)
    requires
        pre.wf(),
        pre.reserved_for(entity),
        distinct_tags(components),
        mid.wf(),
        mid.entities == pre.entities,
        mid.archetypes.archetypes@.len() >= pre.archetypes.archetypes@.len(),
        mid.archetypes.archetypes@.len() <= pre.archetypes.archetypes@.len() + 1,
        (target.0 as int) < mid.archetypes.archetypes@.len(),
        forall|i: int|
            0 <= i < pre.archetypes.archetypes@.len() ==> #[trigger] mid.archetypes.archetypes@[i]
                == pre.archetypes.archetypes@[i],
        mid.archetypes.archetypes@.len() > pre.archetypes.archetypes@.len() ==> target.0
            == pre.archetypes.archetypes@.len()
            && mid.archetypes.archetypes@[target.0 as int].entities@.len() == 0,
        sorted_strict(mid.archetypes.archetypes@[target.0 as int].types@),
        same_members(mid.archetypes.archetypes@[target.0 as int].types@, tags_of(components)),
        row as int == mid.archetypes.archetypes@[target.0 as int].entities@.len(),
        post.entities.entities@ == pre.entities.entities@.update(
            entity.0 as int,
            Location { row, id: target },
        ),
        post.entities.freed@ == pre.entities.freed@,
        post.entities.count == pre.entities.count,
        post.archetypes.archetypes@.len() == mid.archetypes.archetypes@.len(),
        forall|i: int|
            0 <= i < mid.archetypes.archetypes@.len() && i != target.0
                ==> #[trigger] post.archetypes.archetypes@[i] == mid.archetypes.archetypes@[i],
        post.archetypes.types == mid.archetypes.types,
        post.archetypes.ids == mid.archetypes.ids,
        post.archetypes.count == mid.archetypes.count,
        ({
            let a0 = mid.archetypes.archetypes@[target.0 as int];
            let a1 = post.archetypes.archetypes@[target.0 as int];
            &&& a1.wf()
            &&& a1.id == a0.id
            &&& a1.types@ == a0.types@
            &&& a1.add == a0.add
            &&& a1.info == a0.info
            &&& a1.entities@ == a0.entities@.push(entity)
            &&& a1.components@.len() == a0.components@.len()
            &&& forall|j: int|
                0 <= j < a0.components@.len() ==> (#[trigger] a1.components@[j])@
                    == a0.components@[j]@.push(ordered[j])
        }),
        ordered.len() == mid.archetypes.archetypes@[target.0 as int].types@.len(),
        ordered_prefix_ok(
            components,
            mid.archetypes.archetypes@[target.0 as int].types@,
            ordered,
            ordered.len() as int,
        ),
    ensures
        post.wf(),
        post.live(entity.0),
        post.schema_of(entity.0) == mid.archetypes.archetypes@[target.0 as int].types@,
        forall|k: int|
            0 <= k < components.len() ==> post.component_value(
                entity.0,
                (#[trigger] components[k]).0,
            ) == components[k].1,
        forall|e2: int|
            0 <= e2 < pre.entities.entities@.len() && e2 != entity.0
                ==> post.entities.entities@[e2] == pre.entities.entities@[e2],
        forall|e2: usize, t: u64|
            #[trigger] pre.has_component_spec(e2, t) && e2 != entity.0
                ==> post.has_component_spec(e2, t) && post.component_value(e2, t)
                == pre.component_value(e2, t),
{
    let pren = pre.archetypes.archetypes@.len() as int;
    let n = post.archetypes.archetypes@.len() as int;
    let a0 = mid.archetypes.archetypes@[target.0 as int];
    let a1 = post.archetypes.archetypes@[target.0 as int];
    assert(post.archetypes.archetypes.len() <= usize::MAX);
    assert(!Location { row, id: target }.is_empty_spec());

    // the allocator's own invariant survives the location write
    assert(post.entities.wf()) by {
        assert forall|i: int|
            0 <= i < post.entities.freed@.len() implies (#[trigger] post.entities.freed@[i])
            < post.entities.entities@.len() && post.entities.entities@[post.entities.freed@[i] as int].is_empty_spec() by {
            assert(pre.entities.freed@[i] != entity.0);
        }
        assert forall|i: int|
            post.entities.count <= i < post.entities.entities@.len() implies (
        #[trigger] post.entities.entities@[i]).is_empty_spec() by {
            assert(i != entity.0);
        }
    }

    // the registry's invariant survives the append
    assert(post.archetypes.wf()) by {
        assert forall|i: int|
            0 <= i < n implies (#[trigger] post.archetypes.archetypes@[i]).wf()
            && post.archetypes.archetypes@[i].id.0 == i by {
            if i != target.0 {
                assert(post.archetypes.archetypes@[i] == mid.archetypes.archetypes@[i]);
            } else {
                assert(a1.id == a0.id);
            }
        }
        assert forall|i: int|
            0 <= i < n implies post.archetypes.types.contents().dom().contains(
            (#[trigger] post.archetypes.archetypes@[i]).types@,
        ) && post.archetypes.types.contents()[post.archetypes.archetypes@[i].types@] == i as usize by {
            if i != target.0 {
                assert(post.archetypes.archetypes@[i] == mid.archetypes.archetypes@[i]);
            } else {
                assert(a1.types@ == a0.types@);
            }
        }
        assert forall|s: Seq<u64>|
            #[trigger] post.archetypes.types.contents().dom().contains(s) implies (
        post.archetypes.types.contents()[s] as int) < n
            && post.archetypes.archetypes@[post.archetypes.types.contents()[s] as int].types@
            == s by {
            let i = mid.archetypes.types.contents()[s] as int;
            if i != target.0 {
                assert(post.archetypes.archetypes@[i] == mid.archetypes.archetypes@[i]);
            } else {
                assert(a1.types@ == a0.types@);
            }
        }
    }

    // no pre-existing row belongs to the entity being spawned
    assert forall|a: int, r: int|
        0 <= a < n && 0 <= r < mid.archetypes.archetypes@[a].entities@.len() implies (
    #[trigger] mid.archetypes.archetypes@[a].entities@[r]).0 != entity.0 by {
        if a < pren {
            assert(mid.archetypes.archetypes@[a] == pre.archetypes.archetypes@[a]);
            if pre.archetypes.archetypes@[a].entities@[r].0 == entity.0 {
                assert(pre.entities.entities@[entity.0 as int] == (Location {
                    row: r as usize,
                    id: ArchetypeId(a as usize),
                }));
                assert((a as usize) < usize::MAX);
                assert(pre.live(entity.0));
            }
        } else {
            assert(n > pren);
            assert(a == pren);
            assert(target.0 as int == a);
            assert(mid.archetypes.archetypes@[target.0 as int].entities@.len() == 0);
        }
    }

    // locations point at their rows
    assert forall|e: int|
        0 <= e < post.entities.entities@.len() && !(
    #[trigger] post.entities.entities@[e]).is_empty_spec() implies {
        let l = post.entities.entities@[e];
        &&& (l.id.0 as int) < n
        &&& (l.row as int) < post.archetypes.archetypes@[l.id.0 as int].entities@.len()
        &&& post.archetypes.archetypes@[l.id.0 as int].entities@[l.row as int].0 == e
    } by {
        let l = post.entities.entities@[e];
        if e == entity.0 {
            assert(l == Location { row, id: target });
            assert(a1.entities@[row as int] == entity);
        } else {
            assert(l == pre.entities.entities@[e]);
            assert((l.id.0 as int) < pren);
            assert(mid.archetypes.archetypes@[l.id.0 as int] == pre.archetypes.archetypes@[l.id.0 as int]);
            if l.id.0 == target.0 {
                assert(a1.entities@[l.row as int] == a0.entities@[l.row as int]);
            } else {
                assert(post.archetypes.archetypes@[l.id.0 as int] == mid.archetypes.archetypes@[l.id.0 as int]);
            }
        }
    }

    // rows point back at their locations
    assert forall|a: int, r: int|
        0 <= a < n && 0 <= r < post.archetypes.archetypes@[a].entities@.len() implies {
        let e = #[trigger] post.archetypes.archetypes@[a].entities@[r];
        &&& (e.0 as int) < post.entities.entities@.len()
        &&& post.entities.entities@[e.0 as int] == (Location {
            row: r as usize,
            id: ArchetypeId(a as usize),
        })
    } by {
        if a == target.0 && r == row as int {
            assert(post.archetypes.archetypes@[a].entities@[r] == entity);
        } else {
            let e = if a == target.0 {
                a0.entities@[r]
            } else {
                mid.archetypes.archetypes@[a].entities@[r]
            };
            assert(post.archetypes.archetypes@[a].entities@[r] == e);
            assert(mid.archetypes.archetypes@[a].entities@[r] == e);
            assert(e.0 != entity.0);
            assert(post.entities.entities@[e.0 as int] == pre.entities.entities@[e.0 as int]);
        }
    }

    // edge targets still extend their sources by one type
    assert forall|a: int, t: u64|
        0 <= a < n && (#[trigger] post.archetypes.archetypes@[a].add.contents().dom().contains(
            t,
        )) implies {
        let v = post.archetypes.archetypes@[a].add.contents()[t] as int;
        &&& v < n
        &&& schema_with(
            post.archetypes.archetypes@[a].types@,
            t,
            post.archetypes.archetypes@[v].types@,
        )
    } by {
        assert(post.archetypes.archetypes@[a].add == mid.archetypes.archetypes@[a].add);
        assert(post.archetypes.archetypes@[a].types@ == mid.archetypes.archetypes@[a].types@);
        let v = mid.archetypes.archetypes@[a].add.contents()[t] as int;
        assert(post.archetypes.archetypes@[v].types@ == mid.archetypes.archetypes@[v].types@);
    }

    assert(post.wf());
    assert(post.live(entity.0));
    assert(post.schema_of(entity.0) == a1.types@);

    // the new row carries the batch's values
    assert forall|k: int|
        0 <= k < components.len() implies post.component_value(
        entity.0,
        (#[trigger] components[k]).0,
    ) == components[k].1 by {
        let t = components[k].0;
        assert(tags_of(components)[k] == t);
        assert(tags_of(components).contains(t));
        assert(a1.types@.contains(t));
        let j = a1.types@.index_of(t);
        assert(a1.types@[j] == t);
        assert(0 <= j < a1.types@.len());
        assert(a0.components@[j]@.len() == row as int);
        assert(a1.components@[j]@ == a0.components@[j]@.push(ordered[j]));
        assert(post.component_value(entity.0, t) == ordered[j]);
        assert(check_slot(
            components,
            mid.archetypes.archetypes@[target.0 as int].types@,
            ordered,
            j,
        ));
        let k2 = tag_index(components, t);
        assert(components[k2].0 == t);
        assert(ordered[j] == components[k2].1);
        if k2 != k {
            assert(components[k2].0 != components[k].0);
        }
    }

    // every other live entity keeps its schema and its values
    assert forall|e2: usize, t: u64|
        #[trigger] pre.has_component_spec(e2, t) && e2 != entity.0 implies post.has_component_spec(
        e2,
        t,
    ) && post.component_value(e2, t) == pre.component_value(e2, t) by {
        let l = pre.entities.entities@[e2 as int];
        assert(post.entities.entities@[e2 as int] == l);
        assert((l.id.0 as int) < pren);
        assert(mid.archetypes.archetypes@[l.id.0 as int] == pre.archetypes.archetypes@[l.id.0 as int]);
        let pa = pre.archetypes.archetypes@[l.id.0 as int];
        let j = pa.types@.index_of(t);
        assert(pa.types@.contains(t));
        assert(0 <= j < pa.types@.len());
        if l.id.0 == target.0 {
            assert(a0 == pa);
            assert((l.row as int) < a0.entities@.len());
            assert(a1.components@[j]@ == a0.components@[j]@.push(ordered[j]));
            assert(a0.components@[j]@.len() == a0.entities@.len());
            assert(a1.components@[j]@[l.row as int] == a0.components@[j]@[l.row as int]);
        } else {
            assert(post.archetypes.archetypes@[l.id.0 as int] == pa);
        }
    }
}

/// Pushing one kept pair extends the kept-tag set by exactly that tag.
proof fn membership_after_push<T>(
    kpre: Seq<(u64, T)>,
    kept: Seq<(u64, T)>,
    sch: Seq<u64>,
    x: u64,
    t: u64,
    k: int,
    excluded: u64,
)
    requires
        kept.len() == kpre.len() + 1,
        forall|i: int| 0 <= i < kpre.len() ==> #[trigger] kept[i] == kpre[i],
        kept[kept.len() - 1].0 == t,
        0 <= k < sch.len(),
        sch[k] == t,
        t != excluded,
        forall|y: u64|
            #[trigger] tags_of(kpre).contains(y) == (sch.take(k).contains(y) && y != excluded),
    ensures
        tags_of(kept).contains(x) == (sch.take(k + 1).contains(x) && x != excluded),
{
    assert(sch.take(k + 1) =~= sch.take(k).push(t));
    if tags_of(kept).contains(x) {
        let w = choose|w: int| 0 <= w < kept.len() && #[trigger] tags_of(kept)[w] == x;
        if w < kpre.len() {
            assert(tags_of(kpre)[w] == x);
            assert(tags_of(kpre).contains(x));
            assert(sch.take(k).contains(x) && x != excluded);
            let u = choose|u: int| 0 <= u < k && #[trigger] sch.take(k)[u] == x;
            assert(sch.take(k + 1)[u] == x);
            assert(sch.take(k + 1).contains(x));
        } else {
            assert(x == t);
            assert(sch.take(k + 1)[k] == t);
            assert(sch.take(k + 1).contains(x));
        }
    }
    if sch.take(k + 1).contains(x) && x != excluded {
        let w = choose|w: int| 0 <= w < k + 1 && #[trigger] sch.take(k + 1)[w] == x;
        if w < k {
            assert(sch.take(k)[w] == x);
            assert(sch.take(k).contains(x));
            assert(tags_of(kpre).contains(x));
            let u = choose|u: int| 0 <= u < kpre.len() && #[trigger] tags_of(kpre)[u] == x;
            assert(tags_of(kept)[u] == x);
            assert(tags_of(kept).contains(x));
        } else {
            assert(x == t);
            assert(tags_of(kept)[kept.len() - 1] == t);
            assert(tags_of(kept).contains(x));
        }
    }
}

/// Recording one transition edge leaves the engine's invariant intact: the
/// new edge points at the archetype whose schema extends the source's by the
/// added type, and nothing else moves.
proof fn edge_insert_restores<T>(
    before: World<T>,
    after: World<T>,
    src: ArchetypeId,
    type_id: u64,
    target: ArchetypeId,
)
    requires
        before.wf(),
        (src.0 as int) < before.archetypes.archetypes@.len(),
        (target.0 as int) < before.archetypes.archetypes@.len(),
        schema_with(
            before.archetypes.archetypes@[src.0 as int].types@,
            type_id,
            before.archetypes.archetypes@[target.0 as int].types@,
        ),
        after.entities == before.entities,
        after.archetypes.types == before.archetypes.types,
        after.archetypes.ids == before.archetypes.ids,
        after.archetypes.count == before.archetypes.count,
        after.archetypes.archetypes@.len() == before.archetypes.archetypes@.len(),
        forall|i: int|
            0 <= i < before.archetypes.archetypes@.len() && i != src.0
                ==> #[trigger] after.archetypes.archetypes@[i] == before.archetypes.archetypes@[i],
        ({
            let a0 = before.archetypes.archetypes@[src.0 as int];
            let a1 = after.archetypes.archetypes@[src.0 as int];
            &&& a1.id == a0.id
            &&& a1.types@ == a0.types@
            &&& a1.components@ == a0.components@
            &&& a1.entities@ == a0.entities@
            &&& a1.info == a0.info
            &&& a1.add.contents() == a0.add.contents().insert(type_id, target.0)
        }),
    ensures
        after.wf(),
{
    let n = before.archetypes.archetypes@.len() as int;
    assert forall|i: int|
        0 <= i < n implies (#[trigger] after.archetypes.archetypes@[i]).wf()
        && after.archetypes.archetypes@[i].id.0 == i by {
        if i != src.0 {
            assert(after.archetypes.archetypes@[i] == before.archetypes.archetypes@[i]);
        }
    }
    assert forall|i: int|
        0 <= i < n implies after.archetypes.types.contents().dom().contains(
        (#[trigger] after.archetypes.archetypes@[i]).types@,
    ) && after.archetypes.types.contents()[after.archetypes.archetypes@[i].types@]
        == i as usize by {
        if i != src.0 {
            assert(after.archetypes.archetypes@[i] == before.archetypes.archetypes@[i]);
        }
    }
    assert forall|s2: Seq<u64>|
        #[trigger] after.archetypes.types.contents().dom().contains(s2) implies (
    after.archetypes.types.contents()[s2] as int) < n
        && after.archetypes.archetypes@[after.archetypes.types.contents()[s2] as int].types@
        == s2 by {
        let i = before.archetypes.types.contents()[s2] as int;
        if i != src.0 {
            assert(after.archetypes.archetypes@[i] == before.archetypes.archetypes@[i]);
        }
    }
    assert(after.archetypes.wf());
    assert forall|e: int|
        0 <= e < after.entities.entities@.len() && !(
    #[trigger] after.entities.entities@[e]).is_empty_spec() implies {
        let l = after.entities.entities@[e];
        &&& (l.id.0 as int) < n
        &&& (l.row as int) < after.archetypes.archetypes@[l.id.0 as int].entities@.len()
        &&& after.archetypes.archetypes@[l.id.0 as int].entities@[l.row as int].0 == e
    } by {
        let l = before.entities.entities@[e];
        if l.id.0 != src.0 {
            assert(after.archetypes.archetypes@[l.id.0 as int] == before.archetypes.archetypes@[l.id.0 as int]);
        }
    }
    assert forall|a: int, r: int|
        0 <= a < n && 0 <= r < after.archetypes.archetypes@[a].entities@.len() implies {
        let e = #[trigger] after.archetypes.archetypes@[a].entities@[r];
        &&& (e.0 as int) < after.entities.entities@.len()
        &&& after.entities.entities@[e.0 as int] == (Location {
            row: r as usize,
            id: ArchetypeId(a as usize),
        })
    } by {
        if a != src.0 {
            assert(after.archetypes.archetypes@[a] == before.archetypes.archetypes@[a]);
        } else {
            assert(after.archetypes.archetypes@[a].entities@[r] == before.archetypes.archetypes@[a].entities@[r]);
        }
    }
    assert forall|a: int, t: u64|
        0 <= a < n && (#[trigger] after.archetypes.archetypes@[a].add.contents().dom().contains(
            t,
        )) implies {
        let v = after.archetypes.archetypes@[a].add.contents()[t] as int;
        &&& v < n
        &&& schema_with(
            after.archetypes.archetypes@[a].types@,
            t,
            after.archetypes.archetypes@[v].types@,
        )
    } by {
        if a != src.0 {
            assert(after.archetypes.archetypes@[a] == before.archetypes.archetypes@[a]);
            let v = before.archetypes.archetypes@[a].add.contents()[t] as int;
            assert(after.archetypes.archetypes@[v].types@ == before.archetypes.archetypes@[v].types@);
        } else {
            if t != type_id {
                assert(before.archetypes.archetypes@[a].add.contents().dom().contains(t));
                let v = before.archetypes.archetypes@[a].add.contents()[t] as int;
                assert(after.archetypes.archetypes@[a].add.contents()[t] as int == v);
                assert(after.archetypes.archetypes@[v].types@ == before.archetypes.archetypes@[v].types@);
            } else {
                assert(after.archetypes.archetypes@[a].add.contents()[t] == target.0);
                assert(after.archetypes.archetypes@[target.0 as int].types@ == before.archetypes.archetypes@[target.0 as int].types@);
            }
        }
    }
}

/// After clearing the removed entity's location, compacting its row by
/// swap-with-last, and retargeting the displaced entity's location, the
/// engine's global invariant holds again and every other entity keeps its
/// schema and values.
#[verifier::rlimit(60)]
proof fn detach_restores<T>(pre: World<T>, post: World<T>, entity: Entity, loc: Location)
    requires
        pre.wf(),
        pre.live(entity.0),
        loc == pre.entities.entities@[entity.0 as int],
        post.archetypes.archetypes@.len() == pre.archetypes.archetypes@.len(),
        forall|i: int|
            0 <= i < pre.archetypes.archetypes@.len() && i != loc.id.0
                ==> #[trigger] post.archetypes.archetypes@[i] == pre.archetypes.archetypes@[i],
        post.archetypes.types == pre.archetypes.types,
        post.archetypes.ids == pre.archetypes.ids,
        post.archetypes.count == pre.archetypes.count,
        ({
            let a0 = pre.archetypes.archetypes@[loc.id.0 as int];
            let a1 = post.archetypes.archetypes@[loc.id.0 as int];
            &&& a1.wf()
            &&& a1.id == a0.id
            &&& a1.types@ == a0.types@
            &&& a1.add == a0.add
            &&& a1.info == a0.info
            &&& a1.entities@ == a0.entities@.update(loc.row as int, a0.entities@.last()).drop_last()
            &&& a1.components@.len() == a0.components@.len()
            &&& forall|j: int|
                0 <= j < a0.components@.len() ==> (#[trigger] a1.components@[j])@
                    == a0.components@[j]@.update(
                    loc.row as int,
                    a0.components@[j]@.last(),
                ).drop_last()
        }),
        ({
            let a0 = pre.archetypes.archetypes@[loc.id.0 as int];
            if loc.row + 1 < a0.entities@.len() {
                post.entities.entities@ == pre.entities.entities@.update(
                    entity.0 as int,
                    Location { row: usize::MAX, id: ArchetypeId(usize::MAX) },
                ).update(a0.entities@.last().0 as int, Location { row: loc.row, id: loc.id })
            } else {
                post.entities.entities@ == pre.entities.entities@.update(
                    entity.0 as int,
                    Location { row: usize::MAX, id: ArchetypeId(usize::MAX) },
                )
            }
        }),
        post.entities.freed@ == pre.entities.freed@,
        post.entities.count == pre.entities.count,
    ensures
        post.wf(),
        post.reserved_for(entity),
        forall|e2: usize, t: u64|
            e2 != entity.0 ==> #[trigger] post.has_component_spec(e2, t) == pre.has_component_spec(
                e2,
                t,
            ),
        forall|e2: usize, t: u64|
            #[trigger] pre.has_component_spec(e2, t) && e2 != entity.0 ==> post.component_value(
                e2,
                t,
            ) == pre.component_value(e2, t),
{
    let n = pre.archetypes.archetypes@.len() as int;
    let a0 = pre.archetypes.archetypes@[loc.id.0 as int];
    let a1 = post.archetypes.archetypes@[loc.id.0 as int];
    let lastrow = a0.entities@.len() - 1;
    let moved = a0.entities@.last();
    let swap = loc.row + 1 < a0.entities@.len();
    assert(pre.archetypes.archetypes.len() <= usize::MAX);
    assert(pre.entities.entities.len() <= usize::MAX);
    assert(pre.archetypes.archetypes@[loc.id.0 as int].entities.len() <= usize::MAX);
    assert((loc.id.0 as int) < n);
    assert((loc.row as int) < a0.entities@.len());
    assert(a0.entities@[loc.row as int].0 == entity.0);
    assert(pre.entities.entities@[moved.0 as int] == (Location {
        row: lastrow as usize,
        id: ArchetypeId(loc.id.0 as usize),
    }));
    assert(ArchetypeId(loc.id.0 as usize) == loc.id);
    assert(entity.0 < pre.entities.count) by {
        if entity.0 >= pre.entities.count {
            assert(pre.entities.entities@[entity.0 as int].is_empty_spec());
        }
    }
    assert(moved.0 < pre.entities.count) by {
        if moved.0 >= pre.entities.count {
            assert(pre.entities.entities@[moved.0 as int].is_empty_spec());
        }
    }
    if swap {
        assert(moved.0 != entity.0) by {
            if moved.0 == entity.0 {
                assert(pre.entities.entities@[entity.0 as int].row == lastrow as usize);
            }
        }
    }

    assert(post.entities.wf()) by {
        assert forall|i: int|
            0 <= i < post.entities.freed@.len() implies (#[trigger] post.entities.freed@[i])
            < post.entities.entities@.len()
            && post.entities.entities@[post.entities.freed@[i] as int].is_empty_spec() by {
            assert(pre.entities.entities@[pre.entities.freed@[i] as int].is_empty_spec());
            assert(pre.entities.freed@[i] != entity.0);
            if swap {
                assert(pre.entities.freed@[i] != moved.0);
            }
        }
        assert forall|i: int|
            post.entities.count <= i < post.entities.entities@.len() implies (
        #[trigger] post.entities.entities@[i]).is_empty_spec() by {
            assert(i != entity.0);
            if swap {
                assert(i != moved.0);
            }
        }
    }

    assert(post.archetypes.wf()) by {
        assert forall|i: int|
            0 <= i < n implies (#[trigger] post.archetypes.archetypes@[i]).wf()
            && post.archetypes.archetypes@[i].id.0 == i by {
            if i != loc.id.0 {
                assert(post.archetypes.archetypes@[i] == pre.archetypes.archetypes@[i]);
            }
        }
        assert forall|i: int|
            0 <= i < n implies post.archetypes.types.contents().dom().contains(
            (#[trigger] post.archetypes.archetypes@[i]).types@,
        ) && post.archetypes.types.contents()[post.archetypes.archetypes@[i].types@]
            == i as usize by {
            if i != loc.id.0 {
                assert(post.archetypes.archetypes@[i] == pre.archetypes.archetypes@[i]);
            }
        }
        assert forall|s2: Seq<u64>|
            #[trigger] post.archetypes.types.contents().dom().contains(s2) implies (
        post.archetypes.types.contents()[s2] as int) < n
            && post.archetypes.archetypes@[post.archetypes.types.contents()[s2] as int].types@
            == s2 by {
            let i = pre.archetypes.types.contents()[s2] as int;
            if i != loc.id.0 {
                assert(post.archetypes.archetypes@[i] == pre.archetypes.archetypes@[i]);
            }
        }
    }

    // locations point at their rows
    assert forall|e: int|
        0 <= e < post.entities.entities@.len() && !(
    #[trigger] post.entities.entities@[e]).is_empty_spec() implies {
        let l = post.entities.entities@[e];
        &&& (l.id.0 as int) < n
        &&& (l.row as int) < post.archetypes.archetypes@[l.id.0 as int].entities@.len()
        &&& post.archetypes.archetypes@[l.id.0 as int].entities@[l.row as int].0 == e
    } by {
        if swap && e == moved.0 {
            assert(post.entities.entities@[e] == Location { row: loc.row, id: loc.id });
            assert(a1.entities@[loc.row as int] == moved);
        } else if e != entity.0 {
            let l = pre.entities.entities@[e];
            assert(post.entities.entities@[e] == l);
            if l.id.0 == loc.id.0 {
                assert(a0.entities@[l.row as int].0 == e);
                assert(l.row as int != loc.row as int);
                assert(l.row as int != lastrow);
                assert(a1.entities@[l.row as int] == a0.entities@[l.row as int]);
            } else {
                assert(post.archetypes.archetypes@[l.id.0 as int] == pre.archetypes.archetypes@[l.id.0 as int]);
            }
        }
    }

    // rows point back at their locations
    assert forall|a: int, r: int|
        0 <= a < n && 0 <= r < post.archetypes.archetypes@[a].entities@.len() implies {
        let e = #[trigger] post.archetypes.archetypes@[a].entities@[r];
        &&& (e.0 as int) < post.entities.entities@.len()
        &&& post.entities.entities@[e.0 as int] == (Location {
            row: r as usize,
            id: ArchetypeId(a as usize),
        })
    } by {
        if a != loc.id.0 {
            assert(post.archetypes.archetypes@[a] == pre.archetypes.archetypes@[a]);
            let e = pre.archetypes.archetypes@[a].entities@[r];
            assert(pre.entities.entities@[e.0 as int] == (Location {
                row: r as usize,
                id: ArchetypeId(a as usize),
            }));
            assert(e.0 != entity.0);
            if swap {
                assert(e.0 != moved.0);
            }
            assert(post.entities.entities@[e.0 as int] == pre.entities.entities@[e.0 as int]);
        } else {
            if swap && r == loc.row as int {
                assert(post.archetypes.archetypes@[a].entities@[r] == moved);
                assert(post.entities.entities@[moved.0 as int] == (Location {
                    row: r as usize,
                    id: ArchetypeId(a as usize),
                }));
            } else {
                assert(a1.entities@[r] == a0.entities@[r]);
                let e = a0.entities@[r];
                assert(pre.entities.entities@[e.0 as int] == (Location {
                    row: r as usize,
                    id: ArchetypeId(a as usize),
                }));
                assert(e.0 != entity.0);
                if swap {
                    assert(e.0 != moved.0);
                }
                assert(post.entities.entities@[e.0 as int] == pre.entities.entities@[e.0 as int]);
            }
        }
    }

    // edge targets unchanged
    assert forall|a: int, t: u64|
        0 <= a < n && (#[trigger] post.archetypes.archetypes@[a].add.contents().dom().contains(
            t,
        )) implies {
        let v = post.archetypes.archetypes@[a].add.contents()[t] as int;
        &&& v < n
        &&& schema_with(
            post.archetypes.archetypes@[a].types@,
            t,
            post.archetypes.archetypes@[v].types@,
        )
    } by {
        assert(post.archetypes.archetypes@[a].add == pre.archetypes.archetypes@[a].add);
        assert(post.archetypes.archetypes@[a].types@ == pre.archetypes.archetypes@[a].types@);
        let v = pre.archetypes.archetypes@[a].add.contents()[t] as int;
        assert(post.archetypes.archetypes@[v].types@ == pre.archetypes.archetypes@[v].types@);
    }

    assert(post.wf());
    assert(post.reserved_for(entity)) by {
        assert forall|i: int|
            0 <= i < post.entities.freed@.len() implies (#[trigger] post.entities.freed@[i])
            != entity.0 by {
            assert(pre.entities.entities@[pre.entities.freed@[i] as int].is_empty_spec());
        }
    }

    // every other entity keeps its schema and values
    assert forall|e2: usize, t: u64|
        e2 != entity.0 implies #[trigger] post.has_component_spec(e2, t)
        == pre.has_component_spec(e2, t) by {
        if (e2 as int) < pre.entities.entities@.len() {
            if swap && e2 == moved.0 {
                assert(post.entities.entities@[e2 as int] == Location { row: loc.row, id: loc.id });
                assert((loc.id.0 as usize) < usize::MAX) by {
                    assert(post.archetypes.archetypes.len() <= usize::MAX);
                }
                assert(!post.entities.entities@[e2 as int].is_empty_spec());
                assert(post.schema_of(e2) == a1.types@);
                assert(pre.schema_of(e2) == a0.types@);
            } else {
                assert(post.entities.entities@[e2 as int] == pre.entities.entities@[e2 as int]);
                if pre.live(e2) {
                    let l = pre.entities.entities@[e2 as int];
                    assert(post.archetypes.archetypes@[l.id.0 as int].types@ == pre.archetypes.archetypes@[l.id.0 as int].types@);
                }
            }
        }
    }
    assert forall|e2: usize, t: u64|
        #[trigger] pre.has_component_spec(e2, t) && e2 != entity.0 implies post.component_value(
        e2,
        t,
    ) == pre.component_value(e2, t) by {
        let l = pre.entities.entities@[e2 as int];
        let j = pre.archetypes.archetypes@[l.id.0 as int].types@.index_of(t);
        assert(pre.archetypes.archetypes@[l.id.0 as int].types@.contains(t));
        assert(0 <= j < pre.archetypes.archetypes@[l.id.0 as int].types@.len());
        if swap && e2 == moved.0 {
            assert(a1.components@[j]@[loc.row as int] == a0.components@[j]@[lastrow]);
            assert(pre.component_value(e2, t) == a0.components@[j]@[lastrow]);
            assert(post.component_value(e2, t) == a1.components@[j]@[loc.row as int]);
        } else {
            assert(post.entities.entities@[e2 as int] == pre.entities.entities@[e2 as int]);
            if l.id.0 == loc.id.0 {
                assert(a0.entities@[l.row as int].0 == e2);
                assert(l.row as int != loc.row as int);
                assert(l.row as int != lastrow);
                assert(a1.components@[j]@[l.row as int] == a0.components@[j]@[l.row as int]);
            } else {
                assert(post.archetypes.archetypes@[l.id.0 as int] == pre.archetypes.archetypes@[l.id.0 as int]);
            }
        }
    }
}

/// The scan position that first matches is the specified first match.
proof fn lemma_first_match_is<T>(w: World<T>, t: u64, i: int)
    requires
        w.wf(),
        0 <= i < w.archetypes.archetypes@.len(),
        w.archetypes.archetypes@[i].types@.contains(t),
        forall|j: int|
            0 <= j < i ==> !(#[trigger] w.archetypes.archetypes@[j]).types@.contains(t),
    ensures
        w.first_match(t) == i,
{
    assert(w.first_match(t) == ({
        choose|i2: int|
            0 <= i2 < w.archetypes.archetypes@.len()
                && (#[trigger] w.archetypes.archetypes@[i2]).types@.contains(t) && (forall|j: int|
                0 <= j < i2 ==> !(#[trigger] w.archetypes.archetypes@[j]).types@.contains(t))
    }));
    let c = w.first_match(t);
    if c != i {
        if c < i {
            assert(!w.archetypes.archetypes@[c].types@.contains(t));
        } else {
            assert(!w.archetypes.archetypes@[i].types@.contains(t));
        }
    }
}

/// Updating one stored value in place keeps the engine's invariant and
/// changes no other value, schema, or location.
#[verifier::rlimit(60)]
proof fn value_update_restores<T>(
    pre: World<T>,
    post: World<T>,
    entity: Entity,
    type_id: u64,
    loc: Location,
    col: int,
    v: T,
)
    requires
        pre.wf(),
        pre.live(entity.0),
        loc == pre.entities.entities@[entity.0 as int],
        col == pre.archetypes.archetypes@[loc.id.0 as int].types@.index_of(type_id),
        pre.archetypes.archetypes@[loc.id.0 as int].types@.contains(type_id),
        post.entities == pre.entities,
        post.archetypes.types == pre.archetypes.types,
        post.archetypes.ids == pre.archetypes.ids,
        post.archetypes.count == pre.archetypes.count,
        post.archetypes.archetypes@.len() == pre.archetypes.archetypes@.len(),
        forall|i: int|
            0 <= i < pre.archetypes.archetypes@.len() && i != loc.id.0
                ==> #[trigger] post.archetypes.archetypes@[i] == pre.archetypes.archetypes@[i],
        ({
            let a0 = pre.archetypes.archetypes@[loc.id.0 as int];
            let a1 = post.archetypes.archetypes@[loc.id.0 as int];
            &&& a1.id == a0.id
            &&& a1.types@ == a0.types@
            &&& a1.add == a0.add
            &&& a1.info == a0.info
            &&& a1.entities@ == a0.entities@
            &&& a1.components@ == a0.components@.update(
                col,
                a1.components@[col],
            )
            &&& a1.components@[col]@ == a0.components@[col]@.update(loc.row as int, v)
        }),
    ensures
        post.wf(),
        post.component_value(entity.0, type_id) == v,
        forall|e2: usize, t: u64|
            #[trigger] post.has_component_spec(e2, t) == pre.has_component_spec(e2, t),
        forall|e2: usize, t: u64|
            #[trigger] pre.has_component_spec(e2, t) && !(e2 == entity.0 && t == type_id)
                ==> post.component_value(e2, t) == pre.component_value(e2, t),
{
    let n = pre.archetypes.archetypes@.len() as int;
    let a0 = pre.archetypes.archetypes@[loc.id.0 as int];
    let a1 = post.archetypes.archetypes@[loc.id.0 as int];
    assert((loc.id.0 as int) < n);
    assert((loc.row as int) < a0.entities@.len());
    assert(0 <= col < a0.types@.len());
    assert(a0.types@[col] == type_id);

    assert(a1.wf()) by {
        assert forall|j: int|
            0 <= j < a1.components@.len() implies (#[trigger] a1.components@[j])@.len()
            == a1.entities@.len() by {
            if j != col {
                assert(a1.components@[j] == a0.components@[j]);
            }
        }
    }
    assert(post.archetypes.wf()) by {
        assert forall|i: int|
            0 <= i < n implies (#[trigger] post.archetypes.archetypes@[i]).wf()
            && post.archetypes.archetypes@[i].id.0 == i by {
            if i != loc.id.0 {
                assert(post.archetypes.archetypes@[i] == pre.archetypes.archetypes@[i]);
            }
        }
        assert forall|i: int|
            0 <= i < n implies post.archetypes.types.contents().dom().contains(
            (#[trigger] post.archetypes.archetypes@[i]).types@,
        ) && post.archetypes.types.contents()[post.archetypes.archetypes@[i].types@]
            == i as usize by {
            if i != loc.id.0 {
                assert(post.archetypes.archetypes@[i] == pre.archetypes.archetypes@[i]);
            }
        }
        assert forall|s2: Seq<u64>|
            #[trigger] post.archetypes.types.contents().dom().contains(s2) implies (
        post.archetypes.types.contents()[s2] as int) < n
            && post.archetypes.archetypes@[post.archetypes.types.contents()[s2] as int].types@
            == s2 by {
            let i = pre.archetypes.types.contents()[s2] as int;
            if i != loc.id.0 {
                assert(post.archetypes.archetypes@[i] == pre.archetypes.archetypes@[i]);
            }
        }
    }
    assert forall|e: int|
        0 <= e < post.entities.entities@.len() && !(
    #[trigger] post.entities.entities@[e]).is_empty_spec() implies {
        let l = post.entities.entities@[e];
        &&& (l.id.0 as int) < n
        &&& (l.row as int) < post.archetypes.archetypes@[l.id.0 as int].entities@.len()
        &&& post.archetypes.archetypes@[l.id.0 as int].entities@[l.row as int].0 == e
    } by {
        let l = pre.entities.entities@[e];
        if l.id.0 != loc.id.0 {
            assert(post.archetypes.archetypes@[l.id.0 as int] == pre.archetypes.archetypes@[l.id.0 as int]);
        }
    }
    assert forall|a: int, r: int|
        0 <= a < n && 0 <= r < post.archetypes.archetypes@[a].entities@.len() implies {
        let e = #[trigger] post.archetypes.archetypes@[a].entities@[r];
        &&& (e.0 as int) < post.entities.entities@.len()
        &&& post.entities.entities@[e.0 as int] == (Location {
            row: r as usize,
            id: ArchetypeId(a as usize),
        })
    } by {
        if a != loc.id.0 {
            assert(post.archetypes.archetypes@[a] == pre.archetypes.archetypes@[a]);
        } else {
            assert(post.archetypes.archetypes@[a].entities@[r] == pre.archetypes.archetypes@[a].entities@[r]);
        }
    }
    assert forall|a: int, t: u64|
        0 <= a < n && (#[trigger] post.archetypes.archetypes@[a].add.contents().dom().contains(
            t,
        )) implies {
        let v2 = post.archetypes.archetypes@[a].add.contents()[t] as int;
        &&& v2 < n
        &&& schema_with(
            post.archetypes.archetypes@[a].types@,
            t,
            post.archetypes.archetypes@[v2].types@,
        )
    } by {
        assert(post.archetypes.archetypes@[a].add == pre.archetypes.archetypes@[a].add);
        assert(post.archetypes.archetypes@[a].types@ == pre.archetypes.archetypes@[a].types@);
        let v2 = pre.archetypes.archetypes@[a].add.contents()[t] as int;
        assert(post.archetypes.archetypes@[v2].types@ == pre.archetypes.archetypes@[v2].types@);
    }
    assert(post.wf());
    assert(post.component_value(entity.0, type_id) == v);
    assert forall|e2: usize, t: u64|
        #[trigger] post.has_component_spec(e2, t) == pre.has_component_spec(e2, t) by {
        if (e2 as int) < pre.entities.entities@.len() && pre.live(e2) {
            let l = pre.entities.entities@[e2 as int];
            assert(post.archetypes.archetypes@[l.id.0 as int].types@ == pre.archetypes.archetypes@[l.id.0 as int].types@);
        }
    }
    assert forall|e2: usize, t: u64|
        #[trigger] pre.has_component_spec(e2, t) && !(e2 == entity.0 && t == type_id) implies post
        .component_value(e2, t) == pre.component_value(e2, t) by {
        let l = pre.entities.entities@[e2 as int];
        let j = pre.archetypes.archetypes@[l.id.0 as int].types@.index_of(t);
        assert(pre.archetypes.archetypes@[l.id.0 as int].types@.contains(t));
        assert(0 <= j < pre.archetypes.archetypes@[l.id.0 as int].types@.len());
        if l.id.0 == loc.id.0 {
            if e2 != entity.0 {
                assert(a0.entities@[l.row as int].0 == e2);
                assert(a0.entities@[loc.row as int].0 == entity.0);
                assert(l.row != loc.row);
                if j == col {
                    assert(a1.components@[col]@[l.row as int] == a0.components@[col]@[l.row as int]);
                } else {
                    assert(a1.components@[j] == a0.components@[j]);
                }
            } else {
                assert(t != type_id);
                assert(a0.types@[j] == t);
                assert(j != col);
                assert(a1.components@[j] == a0.components@[j]);
            }
        } else {
            assert(post.archetypes.archetypes@[l.id.0 as int] == pre.archetypes.archetypes@[l.id.0 as int]);
        }
    }
}

/// One archetype per component set: two registered archetypes whose schemas
/// name the same members are the same archetype. Hence the memoized "add"
/// edge and a fresh schema computation resolve to the same destination.
pub proof fn lemma_interned_schema_unique<T>(w: World<T>, i: int, j: int)
    requires
        w.wf(),
        0 <= i < w.archetypes.archetypes@.len(),
        0 <= j < w.archetypes.archetypes@.len(),
        same_members(
            w.archetypes.archetypes@[i].types@,
            w.archetypes.archetypes@[j].types@,
        ),
    ensures
        i == j,
{
    lemma_canonical_unique(
        w.archetypes.archetypes@[i].types@,
        w.archetypes.archetypes@[j].types@,
    );
    assert(w.archetypes.types.contents()[w.archetypes.archetypes@[i].types@] == i as usize);
    assert(w.archetypes.types.contents()[w.archetypes.archetypes@[j].types@] == j as usize);
    assert(w.archetypes.archetypes.len() <= usize::MAX);
}

/// Induction step container for [`lemma_query_exhaustive`], restricted to
/// the first `n` archetypes.
#[verifier::rlimit(100)]
proof fn lemma_query_exhaustive_upto<T>(w: World<T>, t: u64, n: int)
    requires
        w.wf(),
        0 <= n <= w.archetypes.archetypes@.len(),
    ensures
        w.query_model_upto(t, n).len() == w.query_entities_upto(t, n).len(),
        forall|i: int|
            0 <= i < w.query_entities_upto(t, n).len() ==> {
                let e = #[trigger] w.query_entities_upto(t, n)[i];
                &&& w.has_component_spec(e.0, t)
                &&& (w.location_of(e.0).id.0 as int) < n
                &&& w.query_model_upto(t, n)[i] == w.component_value(e.0, t)
            },
        forall|i: int, j: int|
            0 <= i < j < w.query_entities_upto(t, n).len() ==> (#[trigger] w.query_entities_upto(
                t,
                n,
            )[i]).0 != (#[trigger] w.query_entities_upto(t, n)[j]).0,
        forall|eid: usize|
            #[trigger] w.has_component_spec(eid, t) && (w.location_of(eid).id.0 as int) < n
                ==> exists|i: int|
                0 <= i < w.query_entities_upto(t, n).len() && (#[trigger] w.query_entities_upto(
                    t,
                    n,
                )[i]).0 == eid,
    decreases n,
{
    if n > 0 {
        lemma_query_exhaustive_upto(w, t, n - 1);
        let prev_e = w.query_entities_upto(t, n - 1);
        let prev_m = w.query_model_upto(t, n - 1);
        let rows = w.archetype_rows(n - 1, t);
        let colv = w.archetype_column(n - 1, t);
        let a = w.archetypes.archetypes@[n - 1];
        assert(w.query_entities_upto(t, n) == prev_e + rows);
        assert(w.query_model_upto(t, n) == prev_m + colv);
        if a.types@.contains(t) {
            assert(rows == a.entities@);
            assert(colv == a.components@[a.types@.index_of(t)]@);
            assert(0 <= a.types@.index_of(t) < a.components@.len());
            assert(colv.len() == rows.len());
        } else {
            assert(rows.len() == 0 && colv.len() == 0);
        }

        assert forall|i: int|
            0 <= i < w.query_entities_upto(t, n).len() implies {
            let e = #[trigger] w.query_entities_upto(t, n)[i];
            &&& w.has_component_spec(e.0, t)
            &&& (w.location_of(e.0).id.0 as int) < n
            &&& w.query_model_upto(t, n)[i] == w.component_value(e.0, t)
        } by {
            if i < prev_e.len() {
                assert(w.query_entities_upto(t, n)[i] == prev_e[i]);
                assert(w.query_model_upto(t, n)[i] == prev_m[i]);
                let e = prev_e[i];
                assert(w.has_component_spec(e.0, t) && (w.location_of(e.0).id.0 as int) < n - 1
                    && prev_m[i] == w.component_value(e.0, t));
            } else {
                let r = i - prev_e.len();
                let e = rows[r];
                assert(w.query_entities_upto(t, n)[i] == rows[r]);
                assert(w.query_model_upto(t, n)[i] == colv[r]);
                assert(e == w.archetypes.archetypes@[n - 1].entities@[r]);
                assert(w.entities.entities@[e.0 as int] == (Location {
                    row: r as usize,
                    id: ArchetypeId((n - 1) as usize),
                }));
                assert(w.archetypes.archetypes.len() <= usize::MAX);
                assert(w.archetypes.archetypes@[n - 1].entities.len() <= usize::MAX);
                assert(!w.entities.entities@[e.0 as int].is_empty_spec());
                assert(w.live(e.0));
                assert(w.schema_of(e.0) == a.types@);
                assert(w.has_component_spec(e.0, t));
                assert(w.component_value(e.0, t) == a.components@[a.types@.index_of(t)]@[r]);
            }
        }

        assert forall|i: int, j: int|
            0 <= i < j < w.query_entities_upto(t, n).len() implies (
        #[trigger] w.query_entities_upto(t, n)[i]).0 != (#[trigger] w.query_entities_upto(
            t,
            n,
        )[j]).0 by {
            let ei = w.query_entities_upto(t, n)[i];
            let ej = w.query_entities_upto(t, n)[j];
            if i < prev_e.len() && j < prev_e.len() {
                assert(ei == prev_e[i] && ej == prev_e[j]);
            } else if i < prev_e.len() && j >= prev_e.len() {
                assert(ei == prev_e[i]);
                assert(ej == rows[j - prev_e.len()]);
                assert((w.location_of(ei.0).id.0 as int) < n - 1);
                assert(w.entities.entities@[ej.0 as int] == (Location {
                    row: (j - prev_e.len()) as usize,
                    id: ArchetypeId((n - 1) as usize),
                }));
                assert(w.archetypes.archetypes.len() <= usize::MAX);
                if ei.0 == ej.0 {
                    assert(w.location_of(ei.0).id.0 == (n - 1) as usize);
                }
            } else {
                let ri = i - prev_e.len();
                let rj = j - prev_e.len();
                assert(ei == rows[ri] && ej == rows[rj]);
                assert(w.entities.entities@[ei.0 as int] == (Location {
                    row: ri as usize,
                    id: ArchetypeId((n - 1) as usize),
                }));
                assert(w.entities.entities@[ej.0 as int] == (Location {
                    row: rj as usize,
                    id: ArchetypeId((n - 1) as usize),
                }));
                assert(w.archetypes.archetypes@[n - 1].entities.len() <= usize::MAX);
                if ei.0 == ej.0 {
                    assert(ri as usize == rj as usize);
                }
            }
        }

        assert forall|eid: usize|
            #[trigger] w.has_component_spec(eid, t) && (w.location_of(eid).id.0 as int)
                < n implies exists|i: int|
            0 <= i < w.query_entities_upto(t, n).len() && (#[trigger] w.query_entities_upto(
                t,
                n,
            )[i]).0 == eid by {
            let l = w.location_of(eid);
            if (l.id.0 as int) < n - 1 {
                let i = choose|i: int|
                    0 <= i < prev_e.len() && (#[trigger] prev_e[i]).0 == eid;
                assert(w.query_entities_upto(t, n)[i] == prev_e[i]);
            } else {
                assert(l.id.0 as int == n - 1);
                assert(w.schema_of(eid) == a.types@);
                assert(a.types@.contains(t));
                assert((l.row as int) < a.entities@.len());
                assert(a.entities@[l.row as int].0 == eid);
                let i = prev_e.len() + l.row;
                assert(w.query_entities_upto(t, n)[i as int] == rows[l.row as int]);
            }
        }
    }
}

/// Query exhaustiveness: a query for `t` returns the value of every live
/// entity whose schema holds `t`, each exactly once, whatever order the
/// entities were created in. Slot `i` of the result belongs to the entity in
/// slot `i` of [`World::query_entities`]; those entities are pairwise
/// distinct and cover exactly the live holders of `t`.
pub proof fn lemma_query_exhaustive<T>(w: World<T>, t: u64)
    requires
        w.wf(),
    ensures
        w.query_model(t).len() == w.query_entities(t).len(),
        forall|i: int|
            0 <= i < w.query_entities(t).len() ==> {
                let e = #[trigger] w.query_entities(t)[i];
                &&& w.has_component_spec(e.0, t)
                &&& w.query_model(t)[i] == w.component_value(e.0, t)
            },
        forall|i: int, j: int|
            0 <= i < j < w.query_entities(t).len() ==> (#[trigger] w.query_entities(t)[i]).0 != (
            #[trigger] w.query_entities(t)[j]).0,
        forall|eid: usize|
            #[trigger] w.has_component_spec(eid, t) ==> exists|i: int|
                0 <= i < w.query_entities(t).len() && (#[trigger] w.query_entities(t)[i]).0 == eid,
{
    let n = w.archetypes.archetypes@.len() as int;
    lemma_query_exhaustive_upto(w, t, n);
    assert forall|eid: usize| #[trigger] w.has_component_spec(eid, t) implies exists|i: int|
        0 <= i < w.query_entities(t).len() && (#[trigger] w.query_entities(t)[i]).0 == eid by {
        assert((w.location_of(eid).id.0 as int) < n);
        let i = choose|i: int|
            0 <= i < w.query_entities_upto(t, n).len() && (#[trigger] w.query_entities_upto(
                t,
                n,
            )[i]).0 == eid;
        assert(w.query_entities(t)[i] == w.query_entities_upto(t, n)[i]);
    }
}

} // verus!
