//! Decoder for MotionCam MCRAW files: the container format, the current
//! (type 7) and legacy (type 6) raw frame encodings, and audio extraction.
//!
//! Each decoding step is described by a spec function over the bytes it
//! reads.  A `None` from such a function marks input on which decoding
//! breaks down: an offset or a size overflows, a read or a write falls
//! outside its slice, or a buffer would be larger than a slice may be.  The
//! functions named `..._checked` return `None` on exactly that input; the
//! ones without the suffix require that they are not given it.

pub mod container;
pub mod decoder;
pub mod error;
pub mod raw;
pub mod raw_legacy;
pub mod simd_portable;

pub use container::{
    AudioIndex, AudioMetadata, BufferIndex, BufferOffset, Item, ItemType, CONTAINER_ID,
    CONTAINER_VERSION, INDEX_MAGIC_NUMBER,
};
pub use error::{McRawError, Result};
pub use decoder::{AudioChunk, Decoder};
pub use raw::decode as raw_decode;
pub use raw_legacy::decode_legacy as raw_decode_legacy;
