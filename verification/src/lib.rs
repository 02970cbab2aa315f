//! Seeded cell-shuffle coordinate maps.
//!
//! An image is cut into equal rectangular cells, the cells are permuted by a
//! shuffle that a 32-bit seed fully determines, and every pixel is given the
//! position it samples from after the permutation.

pub mod grid;
pub mod permutation;
pub mod prng;
pub mod seed;
pub mod shuffle;
pub mod texture;

pub use prng::prng;
pub use seed::{hashcode, string_to_seed};
pub use shuffle::shuffle;
pub use texture::generate_uv_map_texture;
