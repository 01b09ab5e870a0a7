//! The Particle Factory simulation core.
//!
//! Headless and self-contained: no rendering, no platform APIs, no I/O. Determinism is
//! structural: fixed-point arithmetic only, randomness is a pure hash of position and
//! tick, and element data is stored in ordered vectors.

pub mod chunk;
pub mod compress;
pub mod elements;
pub mod entities;
pub mod field;
pub mod fixed;
pub mod grid;
pub mod hash;
pub mod heat;
pub mod json;
pub mod paint;
pub mod reactions;
pub mod render;
pub mod rng;
pub mod rules;
pub mod scene;
pub mod spawners;
pub mod sprites;
pub mod step;
pub mod transparent;
pub mod visits;
pub mod world;

pub use chunk::ChunkMap;
pub use elements::{DataError, Element, ElementId, ElementTable, State, EMPTY};
pub use field::{Bounds, CellField};
pub use fixed::Fixed;
pub use grid::Grid;
pub use reactions::{Reaction, ReactionTable};
pub use rules::Rules;
pub use spawners::Spawner;
pub use world::{FlatWorld, World};
