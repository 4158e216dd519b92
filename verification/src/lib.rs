//! A single-slot stash for scene sub-trees.
//!
//! A [`scene::Scene`] is a forest of entities, each tagged with a
//! [`id::StableId`] that outlives the entity's transient handle.  An
//! [`editor::Editor`] owns a scene together with a one-place [`store::Store`]:
//! `extract` lifts the sub-tree under a picked entity out of the scene into a
//! self-contained snapshot, and `restore` plants the snapshot back under a new
//! parent, with fresh handles and the same identifiers.
pub mod error;
pub mod id;
pub mod component;
pub mod tree;
pub mod model;
pub mod scene;
pub mod store;
pub mod editor;
pub mod laws;
