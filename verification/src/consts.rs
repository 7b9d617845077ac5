use vstd::prelude::*;

verus! {

/// Number of elements a chunk holds once full; a pending chunk that reaches
/// this count is frozen before the next element is stored.
pub const CHUNK_SIZE: usize = 4;

/// Capacity reserved up front for the list of frozen chunks.
pub const CHUNK_LIST_INIT_CAPACITY: usize = 16;

} // verus!
