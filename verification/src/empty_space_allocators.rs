//! The two free-space stores: an unbounded growable store, and a
//! fixed-capacity store that refuses insertion when full.

use vstd::prelude::*;

verus! {

use crate::empty_spaces::EmptySpacesProviderTrait;
use crate::rect_structs::RectXYWH;

/// Growable free-space store; insertion never refuses.
pub struct DefaultEmptySpaces {
    empty_spaces: Vec<RectXYWH>,
}

impl EmptySpacesProviderTrait for DefaultEmptySpaces {
    closed spec fn spaces(&self) -> Seq<RectXYWH> {
        self.empty_spaces@
    }

    open spec fn unbounded() -> bool {
        true
    }

    fn empty() -> (s: Self) {
        Self { empty_spaces: Vec::new() }
    }

    fn reset(&mut self) {
        self.empty_spaces.clear();
    }

    fn get(&self, i: usize) -> (r: RectXYWH) {
        self.empty_spaces[i]
    }

    fn get_count(&self) -> (n: usize) {
        self.empty_spaces.len()
    }

    fn remove(&mut self, i: usize) {
        let _removed: RectXYWH = self.empty_spaces.swap_remove(i);
    }

    fn add(&mut self, rect: RectXYWH) -> (ok: bool)
        ensures
            ok,
    {
        self.empty_spaces.push(rect);
        true
    }
}

impl Default for DefaultEmptySpaces {
    fn default() -> (s: Self)
        ensures
            s.spaces() == Seq::<RectXYWH>::empty(),
    {
        Self { empty_spaces: Vec::new() }
    }
}

/// Fixed-capacity free-space store: holds at most `MAX_SPACES` rectangles
/// and refuses insertion instead of growing.
pub struct StaticEmptySpaces<const MAX_SPACES: usize> {
    empty_spaces: Vec<RectXYWH>,
}

impl<const MAX_SPACES: usize> EmptySpacesProviderTrait for StaticEmptySpaces<MAX_SPACES> {
    closed spec fn spaces(&self) -> Seq<RectXYWH> {
        self.empty_spaces@
    }

    open spec fn unbounded() -> bool {
        false
    }

    fn empty() -> (s: Self) {
        Self { empty_spaces: Vec::new() }
    }

    fn reset(&mut self) {
        self.empty_spaces.clear();
    }

    fn get(&self, i: usize) -> (r: RectXYWH) {
        self.empty_spaces[i]
    }

    fn get_count(&self) -> (n: usize) {
        self.empty_spaces.len()
    }

    fn remove(&mut self, i: usize) {
        let _removed: RectXYWH = self.empty_spaces.swap_remove(i);
    }

    fn add(&mut self, rect: RectXYWH) -> (ok: bool)
        ensures
            ok == (old(self).spaces().len() < MAX_SPACES),
    {
        if self.empty_spaces.len() >= MAX_SPACES {
            return false;
        }

        self.empty_spaces.push(rect);
        true
    }
}

impl<const MAX_SPACES: usize> Default for StaticEmptySpaces<MAX_SPACES> {
    fn default() -> (s: Self)
        ensures
            s.spaces() == Seq::<RectXYWH>::empty(),
    {
        Self { empty_spaces: Vec::new() }
    }
}

} // verus!
