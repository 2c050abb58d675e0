//! A user-space union mount: module overlays are merged into one tree, and
//! the tree is turned into the bind, move and tmpfs mounts that realize it.

pub mod builder;
pub mod config;
pub mod mount;
pub mod node;
pub mod prop;
pub mod scanner;
pub mod utils;
