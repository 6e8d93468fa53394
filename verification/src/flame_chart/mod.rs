//! Flame-chart model: snapshots of the trie, their layout on a character
//! grid, keyboard navigation over the layout, colouring and drawing plans.

pub mod snapshot;
pub mod layout;
pub mod navigation;
pub mod colors;
pub mod renderer;
