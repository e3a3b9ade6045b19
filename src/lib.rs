//! Material resolution for a voxel terrain viewer: namespaced material
//! identifiers, a hierarchical cache with ancestor fallback, per-shape model
//! catalogs, and the resolver that turns model definitions into primitives
//! with interned texture references.

pub mod identifier;
pub mod cache;
pub mod storage;
pub mod model;
pub mod baker;
pub mod textures;
pub mod catalog;
pub mod util;
pub mod naming;
pub mod mesh;
pub mod world;
