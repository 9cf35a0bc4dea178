//! Content-addressed snapshots of directory trees, the differences between
//! two snapshots, and the migration manifest that describes them.
pub mod hasher;
pub mod tree;
pub mod pathmap;
pub mod diff;
pub mod manifest;
pub mod text;
pub mod archive;
pub mod path;
pub mod staging;
pub mod cli;
