//! An archetype-based entity-component store: entities grouped by their exact set of
//! component types, each group keeping one column per type, with queries that walk the
//! matching groups row by row and a schedule that runs systems in order.

pub mod archetype;
pub mod component;
pub mod entity;
pub mod storage;
pub mod world;
pub mod filter;
pub mod query;
pub mod system;
pub mod schedule;
pub mod resource;
