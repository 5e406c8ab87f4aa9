//! AVIF container parsing and AV1 inverse-transform reconstruction.
pub mod arith;
pub mod av1;
pub mod compat;
pub mod container;
pub mod decoder;
pub mod error;
pub mod icc;
pub mod image;
pub mod obu;
pub mod text;

pub use error::DecoderError;
pub use image::{ImageBuffer, Rgba16ImageBuffer};
