//! Page-table and page-pool management for a sandbox kernel, and the
//! planning of container filesystem mounts, with their contracts proved.
pub mod defs;
pub mod flags;
pub mod block_alloc;
pub mod pagetable;
pub mod pma;
pub mod range;
pub mod path;
pub mod mounts;
pub mod fs;
pub mod laws;
