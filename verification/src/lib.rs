//! A transform hierarchy for entity-component scenes.
//!
//! Every entity of a scene may own one [`transform::Transform`]: what places
//! it relative to its parent, what the last update derived from that and
//! from its ancestors, and a mark that says whether the two still agree.
//! The [`manager::TransformManager`] stores the transforms in rows, one row
//! for each depth of the hierarchy, hangs subtrees under new parents, walks
//! the hierarchy, recomputes the derived state from the roots down, and
//! destroys transforms at once or at the end of a frame. [`hierarchy`] holds
//! the mathematics that the contracts of the store speak of.
//!
//! The arithmetic on positions, rotations and scales is not part of this
//! crate. A transform carries them as values of two types that the caller
//! chooses, and an update composes them with a function that the caller
//! passes.

pub mod audio;
pub mod component;
pub mod entity;
pub mod hierarchy;
pub mod manager;
pub mod transform;
