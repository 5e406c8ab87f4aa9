//! AV1 reconstruction building blocks.
pub mod headers;
pub mod planes;
pub mod syntax;
pub mod tiles;
pub mod transform;
