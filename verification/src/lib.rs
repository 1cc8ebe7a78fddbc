//! A verified core for a small filesystem-browsing service: a tree walk
//! that turns directory listings into a nested node structure, a metadata
//! inspector that turns raw entry facts into per-entry records, and the
//! untagged JSON encoding both are sent out in. All filesystem access stays
//! with the caller; the logic here is specified and proved.

pub mod json;
pub mod laws;
pub mod meta;
pub mod node;
pub mod tree;
