//! Online placement policies for a single shared object: page migration over
//! a metric topology, replica allocation, and the simpler caching and
//! list-update policies that accompany them.

pub mod graphs;
pub mod random;
pub mod migration;
pub mod allocation;
pub mod paging;
pub mod dynlist;
pub mod bin_packing;
