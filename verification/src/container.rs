//! The AVIF (ISO-BMFF / HEIF) container: boxes, items, properties and sequences.
pub mod types;
pub mod avif;
pub mod bytes;
pub mod boxes;
pub mod properties;
pub mod sequence;
pub mod gain_map;
pub mod grid;
pub mod items;
pub mod metadata;
pub mod payload;
pub mod sample_transform;
