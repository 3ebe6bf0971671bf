//! Baking and loading of 3D scenes: a byte-exact scene codec, LZ4 chunk
//! framing of the encoded scene, and a bump allocator over one region.

pub mod bytes;
pub mod math;
pub mod record;
pub mod allocator;
pub mod codec;
pub mod scene;
pub mod chunk;
pub mod asset;
pub mod stats;
