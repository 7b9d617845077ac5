//! A concurrent, append-only chunked container with cheap immutable snapshots.
//!
//! Elements are stored in fixed-capacity chunks: a list of frozen (full,
//! never-again-mutated) chunks plus one pending chunk that receives new
//! elements. A snapshot hands out shared handles to frozen chunks and a copy
//! of the relevant part of the pending chunk, so it stays valid and unchanged
//! however the container grows afterwards.
//!
//! Elements must be duplicable by value (`T: Copy`). That is deliberately
//! narrower than arbitrary cloneability: sharing a chunk and the
//! copy-on-write step preserve contents exactly only when a duplicate equals
//! its original, which `Copy` guarantees and a hand-written `Clone` need not.

pub mod chunklist;
pub mod consts;

pub use crate::chunklist::Chunk;
pub use crate::chunklist::ChunkList;
pub use crate::chunklist::ChunkListInner;
