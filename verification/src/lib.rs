//! An in-process entity-component storage engine built on the archetype
//! pattern: entities are rows in schema-specific columnar tables, one table
//! per distinct set of component types.
//!
//! The engine maintains one global invariant across all structural
//! mutations: every live entity's recorded location (archetype id + row)
//! points at the row that actually holds that entity's component values.

mod archetype;
mod entity;
mod sparse_set;
mod type_map;
mod world;

pub use archetype::{
    canonicalize, lemma_canonical_unique, same_members, schema_with, schema_without,
    sorted_strict, Archetype, ArchetypeId, Archetypes, ComponentInfo, Edge,
};
pub use entity::{lemma_recycle_after_free, lemma_recycling, Entities, Entity, Location};
pub use sparse_set::{SparseArray, SparseSet};
pub use type_map::{schema_map_of, type_id_map_of, SchemaMap, TypeIdMap};
pub use world::{
    distinct_tags, lemma_interned_schema_unique, lemma_query_exhaustive, tag_index, tags_of,
    EcsError, EntityBuilder, World,
};
