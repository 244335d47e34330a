//! A tile-based ecosystem simulation engine: a bounded grid world of
//! empty cells, food bushes, walls and creatures, together with the
//! localized-view extraction and the action-resolution rules that drive
//! the world deterministically from each creature's chosen action.

pub mod train;
pub mod util;
pub mod world;
