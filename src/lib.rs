//! Core of a molecular-structure viewer: a reader for V2000 structure records,
//! the mapping of a compound onto sphere and cylinder primitives, the index
//! layout of the shared sphere/cylinder mesh buffer, and the instance data
//! (layout and sphere transforms) that an instanced renderer draws from.
//!
//! Numbers that the renderer finally needs as floating point are held exactly
//! here: coordinates as decimals, radii as ratios.

pub mod instance;
pub mod mesh;
pub mod number;
pub mod parser;
pub mod shape;
pub mod text;
