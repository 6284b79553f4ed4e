//! The storage core of an entity-component runtime: a dense bit set,
//! boolean expressions in disjunctive normal form that match archetype
//! shapes, the component registry, type-erased columns, the entity
//! directory, archetype shapes, the world that keeps them in step, and the
//! decisions of event dispatch.
pub mod archetype;
pub mod bit_set;
pub mod bool_expr;
pub mod component;
pub mod entity;
pub mod erased_vec;
pub mod event;
pub mod layout;
pub mod query;
pub mod sparse;
pub mod world;
