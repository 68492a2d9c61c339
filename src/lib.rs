//! Disk usage inventory: builds a size report from the entries of a directory
//! walk, orders it by size and prunes small entries.

pub mod node;
pub mod order;
pub mod prune;
pub mod walk;
