//! Process sampling core: grouping thread records into processes, rebuilding
//! the process tree, a rolling trend window, a snapshot history store and the
//! statistics computed over it.

pub mod model;
pub mod process;
pub mod text;
pub mod tree;
pub mod graph;
pub mod formatter;
pub mod analyze;
pub mod history;
pub mod monitor;
pub mod tui;
