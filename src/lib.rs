//! A hierarchical task list: containers group children in a fixed order, entries
//! carry a four-state lifecycle, and a collapse-aware traversal flattens the tree
//! for display.

mod data;
mod view;

pub use data::{Container, Entry, EntryState, Node, Tree, TreeError};
pub use view::{build_visible_nodes, visible_sequence, AppScreen, AppState, TreeViewState};
