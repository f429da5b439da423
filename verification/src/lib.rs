//! Texture codec core: block-compressed texel formats, a variable-width
//! LZW entropy stage, a Z-order block traversal, and the container layout
//! that ties them together.

pub mod bc1;
pub mod bc2;
pub mod bc3;
pub mod bc4;
pub mod bc5;
pub mod bits;
pub mod jackal;
pub mod lz78;
pub mod lzw;
pub mod math;
pub mod z_curve;

pub use jackal::{DecodeError, DecompressError, Extent};
pub use math::Rgb565;
