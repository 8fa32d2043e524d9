//! The verified core of the moxie timeline editor: the animation tree
//! it edits, the timing and layout it draws, and the decisions its
//! panels make.

pub mod scene;
pub mod span;
pub mod tree;
pub mod prune;
pub mod reorder;
pub mod drop;
pub mod create;
pub mod timing;
pub mod decimal;
pub mod time_axis;
pub mod layout;
pub mod recompile;
pub mod edit;
pub mod panel;
pub mod inspector;
pub mod playback;
pub mod regroup;
pub mod bookmarks;
pub mod pattern;
pub mod project;
pub mod retime;
pub mod hover;
pub mod hierarchy;
pub mod settings;
