//! A concurrent chunked-array codec pipeline.
//!
//! A large logical array is stored as independently addressable, independently
//! encoded chunks in a key/value byte store. This library retrieves or updates
//! rectangular sub-regions of such an array by decoding or encoding only the
//! chunks involved, splicing the bytes of each chunk's sub-region into (or out
//! of) a caller-supplied contiguous row-major buffer.
//!
//! The index arithmetic, the selection normalization, the chunk
//! representation, the in-memory store and the read-modify-write protocol are
//! verified. The codec transforms themselves are supplied by the `zarrs`
//! codec chain behind a small trusted boundary.

pub mod bytes_nd;
pub mod codec;
pub mod error;
pub mod http_store;
pub mod laws;
pub mod representation;
pub mod store;
pub mod subset;
pub mod text;
pub mod nd;
pub mod pipeline;
