//! A hierarchical equal-area pixelisation of the sphere: the integer algebra
//! behind its two pixel numberings, with proofs.
//!
//! A grid has twelve base faces of `nside × nside` pixels each. A pixel is
//! addressed either by its face and face coordinates ([`Hpd`]) or by a single
//! index in one of two numberings: [`Nested`], which follows the Morton code of
//! the face coordinates, and [`Ring`], which counts ring by ring from the north
//! pole.

mod bits;
mod error;
mod grid;
mod hpd;
mod nested;
mod pixel;
mod resolution;
mod ring;
mod ring_proofs;

pub use self::bits::{
    compact, compact_bits, deinterleave, interleave, is_pow2, lemma_compact_morton,
    lemma_morton_bound, lemma_morton_compact, morton, spread, spread_bits, COORD_LIMIT,
};
pub use self::error::{Error, Result};
pub use self::grid::{lemma_pixel_sequence, pixel_sequence, ConstHealpix, DynamicHealpix};
pub use self::hpd::{clamp_to_face, Hpd};
pub use self::nested::{
    lemma_nested_join, lemma_nested_split, nested_face, nested_index, nested_x, nested_y, Nested,
};
pub use self::pixel::{NumberingScheme, Pixel};
pub use self::resolution::{
    face_pixel_count, grid_pixel_count, is_power_of_two, is_valid_face_resolution,
    lemma_resolution_bounds, valid_face_resolution, MAX_FACE_RESOLUTION,
};
pub use self::ring::{
    belt_position, candidate_face, face_phase, face_ring, ring_index, ring_number, wrap_phase,
    Ring,
};
pub use self::ring_proofs::{
    lemma_ring_index_injective, lemma_ring_index_parts, lemma_ring_index_range,
};
