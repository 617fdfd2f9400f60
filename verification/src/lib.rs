//! Tile addressing, spatial indexing, level-of-detail selection and mesh
//! assembly for a terrain surface that is drawn as a quadtree of tiles.
//!
//! The library works on integers only. Real numbers cross its boundary as
//! IEEE-754 bit patterns, which it carries, compares and encodes but never
//! computes with. Lengths on the ground are counted in half world units,
//! in which the side of every tile is a whole number.
//!
//! - [`tile_id`]: tile identifiers, their parents, children and squares.
//! - [`tile_hash`]: the index from tiles to the triangles that may touch
//!   them, over the map of [`tile_map`] and the sorting of [`order`].
//! - [`view`]: the tiles in view and out of view of a camera.
//! - [`vertex`]: positions and triangles of one tile's grid of heights.
//! - [`mesh`], [`geometry`], [`codec`]: meshes and boxes and their bytes.
//! - [`ieee`]: the order of real numbers by their bit patterns.
//! - [`tile_laws`], [`tile_hash_laws`], [`view_laws`]: what holds between
//!   the operations.

pub mod codec;
pub mod geometry;
pub mod ieee;
pub mod lists;
pub mod mesh;
pub mod order;
pub mod tile_hash;
pub mod tile_hash_laws;
pub mod tile_id;
pub mod tile_laws;
pub mod tile_map;
pub mod vertex;
pub mod view;
pub mod view_laws;
