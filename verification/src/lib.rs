//! A save-file version tree manager for Plants vs. Zombies.
//!
//! Each game mode keeps a tree of backup nodes: node `0` is the root that
//! stands for "no save", every other node is one backed-up save file whose
//! parent is the save it was made from.  The library holds the tree, the rules
//! that edit and prune it, and the names of the files it keeps.

pub mod models;
pub mod tree;
pub mod text;
pub mod game_ids;
pub mod paths;
pub mod laws;
pub mod commands;
pub mod outline;
