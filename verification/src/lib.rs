//! A direct-mapped, write-back, write-allocate cache model over a byte-addressed
//! backing memory.
pub mod cache;
