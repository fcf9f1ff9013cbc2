//! Pane layout and session bookkeeping for a tabbed, split-pane terminal.

pub mod atlas;
pub mod event;
pub mod keys;
pub mod navigation;
pub mod palette;
pub mod panes;
pub mod tabs;
pub mod terminal;
pub mod text;
pub mod tree_lemmas;
