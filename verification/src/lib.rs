//! A verified tree-merge engine in the manner of `stow`: it mirrors the
//! directory structure of a module into a target tree, one link (or copy)
//! per entry, and can remove the mirror again.
//!
//! The engine works on an in-memory model of the target tree (`model::Fs`);
//! the surrounding program reads the real trees into that model, runs the
//! engine, and replays the reported actions against the filesystem.

pub mod engine;
pub mod laws;
pub mod model;
pub mod path_map;

pub use engine::Stor;
pub use model::{DirEntry, EntryKind, Fs, Module, Node, Report};
pub use path_map::get_relative_target;
