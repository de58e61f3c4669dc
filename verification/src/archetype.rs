use vstd::prelude::*;

use crate::entity::Entity;
use crate::type_map::{empty_type_id_map, SchemaMap, TypeIdMap};

verus! {

/// Stable identity of an archetype. Archetype identifiers are handed out in
/// creation order and, unlike entity identifiers, are never reused.
#[derive(Debug, Clone, Copy, PartialEq, Eq, Hash, Structural)]
pub struct ArchetypeId(pub usize);

impl ArchetypeId {
    /// The identifier no real archetype ever gets; part of the empty
    /// location sentinel.
    pub fn invalid() -> (r: Self)
        ensures
            r.0 == usize::MAX,
    {
        ArchetypeId(usize::MAX)
    }

    pub fn index(&self) -> (r: usize)
        ensures
            r == self.0,
    {
        self.0
    }
}

/// A canonical schema: strictly increasing type identifiers, so every set of
/// component types has exactly one spelling.
pub open spec fn sorted_strict(s: Seq<u64>) -> bool {
    forall|i: int, j: int| 0 <= i < j < s.len() ==> s[i] < s[j]
}

/// `a` and `b` name the same set of type identifiers.
pub open spec fn same_members(a: Seq<u64>, b: Seq<u64>) -> bool {
    forall|t: u64| #![trigger a.contains(t)] #![trigger b.contains(t)] a.contains(t)
        == b.contains(t)
}

/// `ext` is the canonical schema of `base`'s members plus `t`.
pub open spec fn schema_with(base: Seq<u64>, t: u64, ext: Seq<u64>) -> bool {
    &&& sorted_strict(ext)
    &&& forall|x: u64| #[trigger] ext.contains(x) == (base.contains(x) || x == t)
}

/// `red` is the canonical schema of `base`'s members minus `t`.
pub open spec fn schema_without(base: Seq<u64>, t: u64, red: Seq<u64>) -> bool {
    &&& sorted_strict(red)
    &&& forall|x: u64| #[trigger] red.contains(x) == (base.contains(x) && x != t)
}

/// In a strictly sorted sequence the last element occurs nowhere else, so
/// dropping it removes exactly that member.
proof fn lemma_drop_last_members(s: Seq<u64>)
    requires
        sorted_strict(s),
        s.len() > 0,
    ensures
        forall|x: u64| #[trigger] s.drop_last().contains(x) == (s.contains(x) && x != s.last()),
{
    assert forall|x: u64| #[trigger] s.drop_last().contains(x) implies (s.contains(x) && x
        != s.last()) by {
        let k = choose|k: int| 0 <= k < s.drop_last().len() && s.drop_last()[k] == x;
        assert(s[k] == x);
        assert(s[k] < s[s.len() - 1]);
    }
    assert forall|x: u64| s.contains(x) && x != s.last() implies #[trigger] s.drop_last().contains(
        x,
    ) by {
        let k = choose|k: int| 0 <= k < s.len() && s[k] == x;
        assert(k != s.len() - 1);
        assert(s.drop_last()[k] == x);
    }
}

/// Schema canonicalization is unique: two strictly sorted sequences with the
/// same members are the same sequence. Hence component sets presented in any
/// order resolve to the same canonical schema, and so to the same archetype.
pub proof fn lemma_canonical_unique(a: Seq<u64>, b: Seq<u64>)
    requires
        sorted_strict(a),
        sorted_strict(b),
        same_members(a, b),
    ensures
        a == b,
    decreases a.len(),
{
    if a.len() == 0 {
        if b.len() > 0 {
            assert(b.contains(b[0]));
            assert(a.contains(b[0]));
        }
        assert(a =~= b);
    } else {
        assert(a.contains(a.last()));
        assert(b.contains(a.last()));
        assert(b.len() > 0);
        assert(b.contains(b.last()));
        assert(a.contains(b.last()));
        let ja = choose|j: int| 0 <= j < a.len() && a[j] == b.last();
        let jb = choose|j: int| 0 <= j < b.len() && b[j] == a.last();
        if ja < a.len() - 1 {
            assert(a[ja] < a[a.len() - 1]);
        }
        if jb < b.len() - 1 {
            assert(b[jb] < b[b.len() - 1]);
        }
        assert(a.last() == b.last());
        lemma_drop_last_members(a);
        lemma_drop_last_members(b);
        assert forall|t: u64|
            #![trigger a.drop_last().contains(t)]
            #![trigger b.drop_last().contains(t)]
            a.drop_last().contains(t) == b.drop_last().contains(t) by {
            assert(a.contains(t) == b.contains(t));
        }
        lemma_canonical_unique(a.drop_last(), b.drop_last());
        assert forall|i: int| 0 <= i < a.len() implies a[i] == b[i] by {
            if i < a.len() - 1 {
                assert(a.drop_last()[i] == b.drop_last()[i]);
            }
        }
        assert(a =~= b);
    }
}

/// Insert a type identifier into a canonical schema, keeping it canonical;
/// an identifier already present is left alone.
fn insert_sorted(out: &mut Vec<u64>, t: u64)
    requires
        sorted_strict(old(out)@),
    ensures
        sorted_strict(final(out)@),
        forall|x: u64| #[trigger] final(out)@.contains(x) == (old(out)@.contains(x) || x == t),
        final(out)@.len() <= old(out)@.len() + 1,
{
    let mut i: usize = 0;
    while i < out.len() && out[i] < t
        invariant
            sorted_strict(out@),
            out@ == old(out)@,
            i <= out@.len(),
            forall|k: int| 0 <= k < i ==> out@[k] < t,
        decreases out@.len() - i,
    {
        i = i + 1;
    }

    if i < out.len() && out[i] == t {
        proof {
            assert(out@.contains(t));
        }
    } else {
        let ghost pre = out@;
        out.insert(i, t);
        proof {
            assert(out@ == pre.insert(i as int, t));
            assert forall|x: u64| #[trigger] out@.contains(x) implies (pre.contains(x) || x
                == t) by {
                let k = choose|k: int| 0 <= k < out@.len() && out@[k] == x;
                if k < i {
                    assert(pre[k] == x);
                } else if k > i {
                    assert(pre[k - 1] == x);
                }
            }
            assert forall|x: u64| pre.contains(x) implies #[trigger] out@.contains(x) by {
                let k = choose|k: int| 0 <= k < pre.len() && pre[k] == x;
                if k < i {
                    assert(out@[k] == x);
                } else {
                    assert(out@[k + 1] == x);
                }
            }
            assert(out@[i as int] == t);
            assert(out@.contains(t));
            assert forall|p: int, q: int| 0 <= p < q < out@.len() implies out@[p] < out@[q] by {
                if q < i {
                    assert(pre[p] < pre[q]);
                } else if p > i {
                    assert(pre[p - 1] < pre[q - 1]);
                } else if p < i && q == i {
                    assert(pre[p] < t);
                } else if p == i && q > i {
                    assert(pre[q - 1] == out@[q]);
                    if i < pre.len() {
                        assert(pre[i as int] <= pre[q - 1]) by {
                            if i < q - 1 {
                                assert(pre[i as int] < pre[q - 1]);
                            }
                        }
                        assert(t < pre[i as int]);
                    }
                } else if p < i && q > i {
                    assert(pre[p] < t);
                    if i < pre.len() {
                        assert(t < pre[i as int]);
                    }
                    assert(pre[p] < pre[q - 1]) by {
                        if p < q - 1 {
                        } else {
                            assert(p == q - 1);
                        }
                    }
                }
            }
        }
    }
}

/// The canonical schema of a component set: sorted and deduplicated, so two
/// sets with the same members canonicalize to the same sequence.
pub fn canonicalize(types: &Vec<u64>) -> (r: Vec<u64>)
    ensures
        sorted_strict(r@),
        same_members(r@, types@),
        r@.len() <= types@.len(),
{
    let mut out: Vec<u64> = Vec::new();
    let mut k: usize = 0;
    while k < types.len()
        invariant
            sorted_strict(out@),
            k <= types@.len(),
            out@.len() <= k,
            forall|x: u64| #[trigger] out@.contains(x) == (exists|j: int|
                0 <= j < k && types@[j] == x),
        decreases types@.len() - k,
    {
        let ghost pre = out@;
        insert_sorted(&mut out, types[k]);
        proof {
            assert forall|x: u64| #[trigger] out@.contains(x) implies (exists|j: int|
                0 <= j < k + 1 && types@[j] == x) by {
                if pre.contains(x) {
                    let j = choose|j: int| 0 <= j < k && types@[j] == x;
                    assert(0 <= j < k + 1 && types@[j] == x);
                } else {
                    assert(x == types@[k as int]);
                }
            }
            assert forall|x: u64| (exists|j: int| 0 <= j < k + 1 && types@[j] == x)
                implies #[trigger] out@.contains(x) by {
                let j = choose|j: int| 0 <= j < k + 1 && types@[j] == x;
                if j < k {
                    assert(pre.contains(x));
                }
            }
        }
        k = k + 1;
    }
    proof {
        assert forall|x: u64| #[trigger] out@.contains(x) == types@.contains(x) by {
            if out@.contains(x) {
                let j = choose|j: int| 0 <= j < types@.len() && types@[j] == x;
                assert(types@.contains(x));
            }
            if types@.contains(x) {
                let j = choose|j: int| 0 <= j < types@.len() && types@[j] == x;
                assert(out@.contains(x));
            }
        }
    }
    out
}

/// Position of a component type's column inside an archetype.
#[derive(Debug, Clone, Copy, PartialEq, Eq, Structural)]
pub struct ComponentInfo {
    pub column: usize,
}

/// Cached transition targets out of one archetype for adding or removing a
/// single component type.
#[derive(Debug, Clone, Copy, PartialEq, Eq, Structural)]
pub struct Edge {
    pub add: Option<ArchetypeId>,
    pub remove: Option<ArchetypeId>,
}

impl Edge {
    pub fn new() -> (r: Self)
        ensures
            r.add is None,
            r.remove is None,
    {
        Self { add: None, remove: None }
    }
}

/// One columnar table: all entities sharing one exact schema. Each schema
/// member owns one column; all columns always have the same length (the row
/// count), and row `i` of every column belongs to `entities[i]`.
#[derive(Debug)]
pub struct Archetype<T> {
    pub id: ArchetypeId,
    pub types: Vec<u64>,
    pub components: Vec<Vec<T>>,
    pub entities: Vec<Entity>,
    pub add: TypeIdMap,
    pub info: TypeIdMap,
}

impl<T> Archetype<T> {
    /// Structural soundness of one table: canonical schema, one column per
    /// schema member, equal column lengths, and a column-index map that
    /// mirrors the schema exactly.
    pub open spec fn wf(self) -> bool {
        &&& sorted_strict(self.types@)
        &&& self.components@.len() == self.types@.len()
        &&& forall|j: int|
            0 <= j < self.components@.len() ==> (#[trigger] self.components@[j])@.len()
                == self.entities@.len()
        &&& forall|j: int|
            0 <= j < self.types@.len() ==> self.info.contents().dom().contains(
                #[trigger] self.types@[j],
            ) && self.info.contents()[self.types@[j]] == j as usize
        &&& forall|t: u64|
            #[trigger] self.info.contents().dom().contains(t) ==> self.types@.contains(t)
    }

    /// The column holding component type `t` (meaningful when the schema
    /// contains `t`).
    pub open spec fn spec_column(self, t: u64) -> int {
        self.types@.index_of(t)
    }

    /// Number of rows currently stored.
    pub open spec fn spec_rows(self) -> int {
        self.entities@.len() as int
    }

    pub fn new(id: ArchetypeId, types: Vec<u64>) -> (r: Self)
        requires
            sorted_strict(types@),
        ensures
            r.wf(),
            r.id == id,
            r.types@ == types@,
            r.entities@.len() == 0,
            forall|j: int| 0 <= j < r.components@.len() ==> (#[trigger] r.components@[j])@.len() == 0,
            r.add.contents() == Map::<u64, usize>::empty(),
    {
        let mut components: Vec<Vec<T>> = Vec::new();
        let mut info = TypeIdMap::new();
        let mut j: usize = 0;
        while j < types.len()
            invariant
                sorted_strict(types@),
                j <= types@.len(),
                components@.len() == j,
                forall|k: int| 0 <= k < j ==> (#[trigger] components@[k])@.len() == 0,
                forall|k: int|
                    0 <= k < j ==> info.contents().dom().contains(#[trigger] types@[k])
                        && info.contents()[types@[k]] == k as usize,
                forall|t: u64|
                    #[trigger] info.contents().dom().contains(t) ==> exists|k: int|
                        0 <= k < j && types@[k] == t,
            decreases types@.len() - j,
        {
            components.push(Vec::new());
            let ghost pre_info = info;
            info.insert(types[j], j);
            proof {
                assert forall|k: int|
                    0 <= k < j + 1 implies info.contents().dom().contains(
                    #[trigger] types@[k],
                ) && info.contents()[types@[k]] == k as usize by {
                    if k < j {
                        assert(types@[k] < types@[j as int]);
                    }
                }
                assert forall|t: u64|
                    #[trigger] info.contents().dom().contains(t) implies exists|k: int|
                    0 <= k < j + 1 && types@[k] == t by {
                    if t == types@[j as int] {
                        assert(0 <= j < j + 1 && types@[j as int] == t);
                    } else {
                        assert(pre_info.contents().dom().contains(t));
                        let k = choose|k: int| 0 <= k < j && types@[k] == t;
                        assert(0 <= k < j + 1 && types@[k] == t);
                    }
                }
            }
            j = j + 1;
        }
        proof {
            assert forall|t: u64|
                #[trigger] info.contents().dom().contains(t) implies types@.contains(t) by {
                let k = choose|k: int| 0 <= k < j && types@[k] == t;
                assert(types@[k] == t);
            }
        }
        Self { id, components, info, types, add: TypeIdMap::new(), entities: Vec::new() }
    }

    /// Schema membership test for one component type.
    pub fn has_component(&self, type_id: u64) -> (r: bool)
        ensures
            r == self.types@.contains(type_id),
    {
        let mut i: usize = 0;
        while i < self.types.len()
            invariant
                i <= self.types@.len(),
                forall|k: int| 0 <= k < i ==> self.types@[k] != type_id,
            decreases self.types@.len() - i,
        {
            if self.types[i] == type_id {
                return true;
            }
            i = i + 1;
        }
        proof {
            if self.types@.contains(type_id) {
                let k = choose|k: int| 0 <= k < self.types@.len() && self.types@[k] == type_id;
            }
        }
        false
    }

    /// The column position recorded for a component type, if the schema has
    /// it.
    pub fn get_component_index(&self, type_id: u64) -> (r: Option<ComponentInfo>)
        requires
            self.wf(),
        ensures
            match r {
                Some(ci) => self.types@.contains(type_id) && ci.column == self.spec_column(
                    type_id,
                ),
                None => !self.types@.contains(type_id),
            },
    {
        match self.info.get(type_id) {
            Some(column) => {
                proof {
                    assert(self.info.contents().dom().contains(type_id));
                    assert(self.types@.contains(type_id));
                    let k = choose|k: int|
                        0 <= k < self.types@.len() && self.types@[k] == type_id;
                    assert(self.types@[k] == type_id);
                    assert(self.types.len() <= usize::MAX);
                    assert(self.info.contents()[self.types@[k]] == k as usize);
                    assert((k as usize) as int == k);
                    assert(self.types@.index_of(type_id) == k) by {
                        let k2 = self.types@.index_of(type_id);
                        assert(self.types@[k2] == type_id);
                        if k2 != k {
                            assert(self.types@[k2] != self.types@[k]);
                        }
                    }
                }
                Some(ComponentInfo { column })
            },
            None => {
                proof {
                    if self.types@.contains(type_id) {
                        let k = choose|k: int|
                            0 <= k < self.types@.len() && self.types@[k] == type_id;
                        assert(self.info.contents().dom().contains(self.types@[k]));
                    }
                }
                None
            },
        }
    }

    /// Every value of the component type's column, in row order.
    pub fn get_component(&self, type_id: u64) -> (r: &Vec<T>)
        requires
            self.wf(),
            self.types@.contains(type_id),
        ensures
            r@ == self.components@[self.spec_column(type_id)]@,
    {
        let info = match self.get_component_index(type_id) {
            Some(info) => info,
            None => vstd::pervasive::unreached(),
        };
        &self.components[info.column]
    }

    /// Mutable access to the component type's whole column. The table is
    /// well-formed again as long as the column's length is left unchanged.
    pub fn get_component_mut(&mut self, type_id: u64) -> (r: &mut Vec<T>)
        requires
            old(self).wf(),
            old(self).types@.contains(type_id),
        ensures
            r@ == old(self).components@[old(self).spec_column(type_id)]@,
            final(self).components@ == old(self).components@.update(
                old(self).spec_column(type_id),
                *final(r),
            ),
            final(self).id == old(self).id,
            final(self).types@ == old(self).types@,
            final(self).entities@ == old(self).entities@,
            final(self).add == old(self).add,
            final(self).info == old(self).info,
            final(r)@.len() == old(self).entities@.len() ==> final(self).wf(),
    {
        let info = match self.get_component_index(type_id) {
            Some(info) => info,
            None => vstd::pervasive::unreached(),
        };
        &mut self.components[info.column]
    }

    /// The first value in the component type's column.
    pub fn get_single(&self, type_id: u64) -> (r: &T)
        requires
            self.wf(),
            self.types@.contains(type_id),
            self.entities@.len() > 0,
        ensures
            *r == self.components@[self.spec_column(type_id)]@[0],
    {
        let info = match self.get_component_index(type_id) {
            Some(info) => info,
            None => vstd::pervasive::unreached(),
        };
        &self.components[info.column][0]
    }

    /// Mutable access to the first value in the component type's column.
    pub fn get_single_mut(&mut self, type_id: u64) -> (r: &mut T)
        requires
            old(self).wf(),
            old(self).types@.contains(type_id),
            old(self).entities@.len() > 0,
        ensures
            *r == old(self).components@[old(self).spec_column(type_id)]@[0],
            final(self).components@.len() == old(self).components@.len(),
            forall|j: int|
                0 <= j < old(self).components@.len() && j != old(self).spec_column(type_id)
                    ==> #[trigger] final(self).components@[j] == old(self).components@[j],
            final(self).components@[old(self).spec_column(type_id)]@ == old(self).components@[
                old(self).spec_column(type_id)
            ]@.update(0, *final(r)),
            final(self).id == old(self).id,
            final(self).types@ == old(self).types@,
            final(self).entities@ == old(self).entities@,
            final(self).add == old(self).add,
            final(self).info == old(self).info,
            final(self).wf(),
    {
        let info = match self.get_component_index(type_id) {
            Some(info) => info,
            None => vstd::pervasive::unreached(),
        };
        &mut self.components[info.column][0]
    }

    /// Append one row: the entity plus one value per column, in schema
    /// (column) order. Afterwards every column's length equals the new row
    /// count and the new values sit at the just-assigned row index.
    pub fn append(&mut self, entity: Entity, values: Vec<T>)
        requires
            old(self).wf(),
            values@.len() == old(self).types@.len(),
        ensures
            final(self).wf(),
            final(self).entities@ == old(self).entities@.push(entity),
            final(self).components@.len() == old(self).components@.len(),
            forall|j: int|
                0 <= j < old(self).components@.len() ==> (#[trigger] final(self).components@[j])@
                    == old(self).components@[j]@.push(values@[j]),
            forall|j: int|
                0 <= j < old(self).components@.len() ==> (#[trigger] final(self).components@[j])@[
                    old(self).entities@.len() as int
                ] == values@[j],
            final(self).id == old(self).id,
            final(self).types@ == old(self).types@,
            final(self).add == old(self).add,
            final(self).info == old(self).info,
    {
        let mut values = values;
        let ghost vals0 = values@;
        let mut j: usize = self.components.len();
        while j > 0
            invariant
                old(self).wf(),
                vals0.len() == old(self).components@.len(),
                j <= old(self).components@.len(),
                values@ == vals0.take(j as int),
                self.components@.len() == old(self).components@.len(),
                forall|k: int|
                    0 <= k < j ==> #[trigger] self.components@[k] == old(self).components@[k],
                forall|k: int|
                    j <= k < self.components@.len() ==> (#[trigger] self.components@[k])@ == old(
                        self,
                    ).components@[k]@.push(vals0[k]),
                self.id == old(self).id,
                self.types@ == old(self).types@,
                self.entities@ == old(self).entities@,
                self.add == old(self).add,
                self.info == old(self).info,
            decreases j,
        {
            let v = match values.pop() {
                Some(v) => v,
                None => vstd::pervasive::unreached(),
            };
            proof {
                assert(values@ == vals0.take(j - 1));
                assert(v == vals0[j - 1]);
            }
            j = j - 1;
            self.components[j].push(v);
        }
        self.entities.push(entity);
    }

    /// Remove one row from every column in lockstep, swap-with-last style:
    /// the row formerly at the last position now occupies `row`, and the
    /// caller must retarget the displaced entity's recorded location.
    /// Returns the removed values in column order.
    pub fn remove_row(&mut self, row: usize) -> (values: Vec<T>)
        requires
            old(self).wf(),
            row < old(self).entities@.len(),
        ensures
            final(self).wf(),
            values@.len() == old(self).types@.len(),
            forall|j: int|
                0 <= j < values@.len() ==> #[trigger] values@[j] == old(self).components@[j]@[
                    row as int
                ],
            final(self).entities@ == old(self).entities@.update(
                row as int,
                old(self).entities@.last(),
            ).drop_last(),
            final(self).components@.len() == old(self).components@.len(),
            forall|j: int|
                0 <= j < old(self).components@.len() ==> (#[trigger] final(self).components@[j])@
                    == old(self).components@[j]@.update(
                    row as int,
                    old(self).components@[j]@.last(),
                ).drop_last(),
            final(self).id == old(self).id,
            final(self).types@ == old(self).types@,
            final(self).add == old(self).add,
            final(self).info == old(self).info,
    {
        let mut values: Vec<T> = Vec::new();
        let mut j: usize = 0;
        let n = self.components.len();
        while j < n
            invariant
                old(self).wf(),
                row < old(self).entities@.len(),
                n == old(self).components@.len(),
                j <= n,
                values@.len() == j,
                forall|k: int|
                    0 <= k < j ==> #[trigger] values@[k] == old(self).components@[k]@[row as int],
                self.components@.len() == old(self).components@.len(),
                forall|k: int|
                    j <= k < n ==> #[trigger] self.components@[k] == old(self).components@[k],
                forall|k: int|
                    0 <= k < j ==> (#[trigger] self.components@[k])@ == old(self).components@[k]@
                        .update(row as int, old(self).components@[k]@.last()).drop_last(),
                self.id == old(self).id,
                self.types@ == old(self).types@,
                self.entities@ == old(self).entities@,
                self.add == old(self).add,
                self.info == old(self).info,
            decreases n - j,
        {
            let v = self.components[j].swap_remove(row);
            values.push(v);
            j = j + 1;
        }
        self.entities.swap_remove(row);
        values
    }

    /// The memoized destination for "add component type `t`", if one was
    /// recorded. Absence is only a cache miss, never an error.
    pub fn edge_for_add(&self, type_id: u64) -> (r: Option<ArchetypeId>)
        ensures
            r == if self.add.contents().dom().contains(type_id) {
                Some(ArchetypeId(self.add.contents()[type_id]))
            } else {
                None::<ArchetypeId>
            },
    {
        match self.add.get(type_id) {
            Some(target) => Some(ArchetypeId(target)),
            None => None,
        }
    }

    /// Record the destination archetype for "add component type `t`".
    pub fn insert_edge(&mut self, type_id: u64, target: ArchetypeId)
        ensures
            final(self).add.contents() == old(self).add.contents().insert(
                type_id,
                target.0,
            ),
            final(self).id == old(self).id,
            final(self).types@ == old(self).types@,
            final(self).components@ == old(self).components@,
            final(self).entities@ == old(self).entities@,
            final(self).info == old(self).info,
    {
        self.add.insert(type_id, target.0);
    }

    pub fn id(&self) -> (r: ArchetypeId)
        ensures
            r == self.id,
    {
        self.id
    }

    /// Current row count (every column's length).
    pub fn rows(&self) -> (r: usize)
        ensures
            r == self.entities@.len(),
    {
        self.entities.len()
    }
}

/// Key under which an archetype's slot is recorded in the id map.
pub open spec fn id_key(i: int) -> u64 {
    i as u64
}

/// The archetype registry: interns each canonical schema to one archetype,
/// created on first use and kept for the engine's lifetime. Slot `i` always
/// holds the archetype with identity `i`.
#[derive(Debug)]
pub struct Archetypes<T> {
    pub archetypes: Vec<Archetype<T>>,
    pub types: SchemaMap,
    pub ids: TypeIdMap,
    pub count: usize,
}

impl<T> Archetypes<T> {
    /// Registry soundness: every archetype is well-formed and sits at the
    /// slot its identity names; the schema map and the id map index exactly
    /// the registered archetypes.
    pub open spec fn wf(self) -> bool {
        &&& self.count == self.archetypes@.len()
        &&& forall|i: int|
            0 <= i < self.archetypes@.len() ==> (#[trigger] self.archetypes@[i]).wf()
                && self.archetypes@[i].id.0 == i
        &&& forall|i: int|
            0 <= i < self.archetypes@.len() ==> self.ids.contents().dom().contains(
                #[trigger] id_key(i),
            ) && self.ids.contents()[id_key(i)] == i as usize
        &&& forall|k: u64|
            #[trigger] self.ids.contents().dom().contains(k) ==> (k as int)
                < self.archetypes@.len()
        &&& forall|i: int|
            0 <= i < self.archetypes@.len() ==> self.types.contents().dom().contains(
                (#[trigger] self.archetypes@[i]).types@,
            ) && self.types.contents()[self.archetypes@[i].types@] == i as usize
        &&& forall|s: Seq<u64>|
            #[trigger] self.types.contents().dom().contains(s) ==> (self.types.contents()[s] as int)
                < self.archetypes@.len() && self.archetypes@[self.types.contents()[s] as int].types@
                == s
    }

    pub fn new() -> (r: Self)
        ensures
            r.wf(),
            r.archetypes@.len() == 0,
    {
        Self { archetypes: Vec::new(), types: SchemaMap::new(), ids: TypeIdMap::new(), count: 0 }
    }

    /// Whether an archetype was already interned for this exact canonical
    /// schema.
    pub fn has_archetype(&self, types: &Vec<u64>) -> (r: bool)
        ensures
            r == self.types.contents().dom().contains(types@),
    {
        self.types.contains_key(types)
    }

    /// Intern a new archetype for the canonical form of `types`. The schema
    /// must not be registered yet (callers resolve existing schemas first).
    pub fn create_archetype(&mut self, types: &Vec<u64>) -> (r: ArchetypeId)
        requires
            old(self).wf(),
            forall|i: int|
                0 <= i < old(self).archetypes@.len() ==> !same_members(
                    (#[trigger] old(self).archetypes@[i]).types@,
                    types@,
                ),
        ensures
            final(self).wf(),
            r.0 == old(self).archetypes@.len(),
            final(self).archetypes@.len() == old(self).archetypes@.len() + 1,
            forall|i: int|
                0 <= i < old(self).archetypes@.len() ==> #[trigger] final(self).archetypes@[i]
                    == old(self).archetypes@[i],
            final(self).archetypes@[r.0 as int].id == r,
            sorted_strict(final(self).archetypes@[r.0 as int].types@),
            same_members(final(self).archetypes@[r.0 as int].types@, types@),
            final(self).archetypes@[r.0 as int].entities@.len() == 0,
            final(self).archetypes@[r.0 as int].add.contents() == empty_type_id_map(),
    {
        // One canonical copy keys the schema map, the other becomes the
        // archetype's schema; canonicalization is deterministic, so the two
        // are the same sequence.
        let key = canonicalize(types);
        let schema = canonicalize(types);
        proof {
            lemma_canonical_unique(key@, schema@);
        }

        let index = self.archetypes.len();
        let id = ArchetypeId(index);
        let archetype = Archetype::new(id, schema);

        proof {
            assert forall|i: int|
                0 <= i < self.archetypes@.len() implies (#[trigger] self.archetypes@[i]).types@
                != key@ by {
                if self.archetypes@[i].types@ == key@ {
                    assert(same_members(self.archetypes@[i].types@, types@));
                }
            }
        }

        self.types.insert(key, index);
        self.ids.insert(index as u64, index);
        self.archetypes.push(archetype);
        self.count = self.archetypes.len();

        proof {
            assert forall|i: int|
                0 <= i < self.archetypes@.len() implies self.ids.contents().dom().contains(
                #[trigger] id_key(i),
            ) && self.ids.contents()[id_key(i)] == i as usize by {
                if i < index {
                    assert(id_key(i) != id_key(index as int)) by {
                        assert(self.archetypes.len() <= usize::MAX);
                    }
                }
            }
            assert forall|k: u64|
                #[trigger] self.ids.contents().dom().contains(k) implies (k as int)
                < self.archetypes@.len() by {
                if k != id_key(index as int) {
                    assert(old(self).ids.contents().dom().contains(k));
                }
            }
            assert forall|i: int|
                0 <= i < self.archetypes@.len() implies (#[trigger] self.archetypes@[i]).wf()
                && self.archetypes@[i].id.0 == i by {
                if i < index {
                    assert(self.archetypes@[i] == old(self).archetypes@[i]);
                }
            }
            assert forall|i: int|
                0 <= i < self.archetypes@.len() implies self.types.contents().dom().contains(
                (#[trigger] self.archetypes@[i]).types@,
            ) && self.types.contents()[self.archetypes@[i].types@] == i as usize by {
                if i < index {
                    assert(self.archetypes@[i] == old(self).archetypes@[i]);
                    assert(old(self).archetypes@[i].types@ != key@);
                } else {
                    assert(self.archetypes@[i].types@ == key@);
                }
            }
            assert forall|s: Seq<u64>|
                #[trigger] self.types.contents().dom().contains(s) implies (self.types.contents()[s]
                as int) < self.archetypes@.len() && self.archetypes@[self.types.contents()[s] as int].types@
                == s by {
                if s != key@ {
                    assert(old(self).types.contents().dom().contains(s));
                    let j = old(self).types.contents()[s] as int;
                    assert(old(self).archetypes@[j].types@ == s);
                    assert(self.archetypes@[j] == old(self).archetypes@[j]);
                }
            }
        }

        id
    }

    /// The registered archetype for this exact canonical schema, if any.
    pub fn get_by_types_mut(&mut self, types: &Vec<u64>) -> (r: Option<&mut Archetype<T>>)
        requires
            old(self).wf(),
        ensures
            match r {
                Some(m) => {
                    &&& old(self).types.contents().dom().contains(types@)
                    &&& *m == old(self).archetypes@[old(self).types.contents()[types@] as int]
                    &&& final(self).archetypes@ == old(self).archetypes@.update(
                        old(self).types.contents()[types@] as int,
                        *final(m),
                    )
                    &&& final(self).types == old(self).types
                    &&& final(self).ids == old(self).ids
                    &&& final(self).count == old(self).count
                },
                None => {
                    &&& !old(self).types.contents().dom().contains(types@)
                    &&& *final(self) == *old(self)
                },
            },
    {
        match self.types.get(types) {
            Some(index) => {
                proof {
                    assert(self.types.contents().dom().contains(types@));
                    assert((self.types.contents()[types@] as int) < self.archetypes@.len());
                    assert((index as int) < self.archetypes@.len());
                }
                Some(&mut self.archetypes[index])
            },
            None => None,
        }
    }

    /// The archetype with the given identity (the identity must be one this
    /// registry handed out).
    pub fn get_by_id(&self, id: ArchetypeId) -> (r: &Archetype<T>)
        requires
            self.wf(),
            id.0 < self.archetypes@.len(),
        ensures
            *r == self.archetypes@[id.0 as int],
    {
        proof {
            assert(self.ids.contents().dom().contains(id_key(id.0 as int)));
        }
        match self.ids.get(id.0 as u64) {
            Some(index) => &self.archetypes[index],
            None => vstd::pervasive::unreached(),
        }
    }

    /// Mutable access to the archetype with the given identity.
    pub fn get_by_id_mut(&mut self, id: ArchetypeId) -> (r: &mut Archetype<T>)
        requires
            old(self).wf(),
            id.0 < old(self).archetypes@.len(),
        ensures
            *r == old(self).archetypes@[id.0 as int],
            final(self).archetypes@ == old(self).archetypes@.update(id.0 as int, *final(r)),
            final(self).types == old(self).types,
            final(self).ids == old(self).ids,
            final(self).count == old(self).count,
    {
        proof {
            assert(self.ids.contents().dom().contains(id_key(id.0 as int)));
        }
        match self.ids.get(id.0 as u64) {
            Some(index) => &mut self.archetypes[index],
            None => vstd::pervasive::unreached(),
        }
    }

    /// Number of archetypes registered so far.
    pub fn len(&self) -> (r: usize)
        ensures
            r == self.archetypes@.len(),
    {
        self.archetypes.len()
    }

    /// The archetype in registry slot `index` (equal to its identity).
    pub fn get_by_index(&self, index: usize) -> (r: &Archetype<T>)
        requires
            index < self.archetypes@.len(),
        ensures
            *r == self.archetypes@[index as int],
    {
        &self.archetypes[index]
    }
}

} // verus!
