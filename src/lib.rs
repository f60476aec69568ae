//! Groups photo files by file-name stem, parks stem collisions in a side
//! list, and attaches content digests to every registered file.

pub mod arguments;
pub mod paths;
pub mod photos;
pub mod serializers;
