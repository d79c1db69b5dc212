//! Rectangle packing: places a set of axis-aligned rectangles into the
//! smallest enclosing bin it can find, using guillotine splits of free space
//! and a shrink/grow search over candidate bin sizes.

pub mod best_bin_finder;
pub mod empty_space_allocators;
pub mod empty_spaces;
pub mod finders_interface;
pub mod insert_and_split;
pub mod rect_structs;
