use vstd::prelude::*;

verus! {

/// Hash map from a component type identifier to a small index (a column
/// position, or an archetype's slot), backed by `rustc_hash::FxHashMap`,
/// which is `std::collections::HashMap` with the Fx hasher. The map itself
/// is opaque to the verifier; [`type_id_map_of`] names its contents, and the
/// wrappers below state what the standard map documents of each operation.
#[verifier::external_body]
#[derive(Debug)]
pub struct TypeIdMap {
    map: rustc_hash::FxHashMap<u64, usize>,
}

/// The mathematical contents of a [`TypeIdMap`].
pub uninterp spec fn type_id_map_of(m: TypeIdMap) -> Map<u64, usize>;

/// The contents of a type-identifier map with no entries.
pub open spec fn empty_type_id_map() -> Map<u64, usize> {
    Map::empty()
}

impl TypeIdMap {
    /// The mathematical contents of this map.
    pub open spec fn contents(self) -> Map<u64, usize> {
        type_id_map_of(self)
    }

    /// Relies on `FxHashMap::default`: a freshly created map is empty.
    #[verifier::external_body]
    pub fn new() -> (r: Self)
        ensures
            type_id_map_of(r) == empty_type_id_map(),
    {
        Self { map: rustc_hash::FxHashMap::default() }
    }

    /// Relies on `HashMap::insert`: the key now maps to the value; every
    /// other entry is unchanged.
    #[verifier::external_body]
    pub fn insert(&mut self, key: u64, value: usize)
        ensures
            type_id_map_of(*final(self)) == type_id_map_of(*old(self)).insert(key, value),
    {
        self.map.insert(key, value);
    }

    /// Relies on `HashMap::get`: the value recorded for the key, if any.
    #[verifier::external_body]
    pub fn get(&self, key: u64) -> (r: Option<usize>)
        ensures
            r == if self.contents().dom().contains(key) {
                Some(self.contents()[key])
            } else {
                None::<usize>
            },
    {
        self.map.get(&key).copied()
    }
}

/// Hash map from a canonical schema (sorted, deduplicated type identifiers)
/// to the slot of the archetype interned for it, backed by
/// `rustc_hash::FxHashMap` exactly as [`TypeIdMap`] is. [`schema_map_of`]
/// names its contents.
#[verifier::external_body]
#[derive(Debug)]
pub struct SchemaMap {
    map: rustc_hash::FxHashMap<Vec<u64>, usize>,
}

/// The mathematical contents of a [`SchemaMap`].
pub uninterp spec fn schema_map_of(m: SchemaMap) -> Map<Seq<u64>, usize>;

/// The contents of a schema map with no entries.
pub open spec fn empty_schema_map() -> Map<Seq<u64>, usize> {
    Map::empty()
}

impl SchemaMap {
    /// The mathematical contents of this map.
    pub open spec fn contents(self) -> Map<Seq<u64>, usize> {
        schema_map_of(self)
    }

    /// Relies on `FxHashMap::default`: a freshly created map is empty.
    #[verifier::external_body]
    pub fn new() -> (r: Self)
        ensures
            schema_map_of(r) == empty_schema_map(),
    {
        Self { map: rustc_hash::FxHashMap::default() }
    }

    /// Relies on `HashMap::insert`: the key now maps to the value; every
    /// other entry is unchanged. (`Vec<u64>` keys hash and compare by their
    /// element sequence.)
    #[verifier::external_body]
    pub fn insert(&mut self, key: Vec<u64>, value: usize)
        ensures
            schema_map_of(*final(self)) == schema_map_of(*old(self)).insert(key@, value),
    {
        self.map.insert(key, value);
    }

    /// Relies on `HashMap::get`: the value recorded for the key, if any.
    #[verifier::external_body]
    pub fn get(&self, key: &Vec<u64>) -> (r: Option<usize>)
        ensures
            r == if schema_map_of(*self).dom().contains(key@) {
                Some(schema_map_of(*self)[key@])
            } else {
                None::<usize>
            },
    {
        self.map.get(key).copied()
    }

    /// Relies on `HashMap::contains_key`.
    #[verifier::external_body]
    pub fn contains_key(&self, key: &Vec<u64>) -> (r: bool)
        ensures
            r == schema_map_of(*self).dom().contains(key@),
    {
        self.map.contains_key(key)
    }
}

} // verus!
