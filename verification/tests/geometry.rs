//! Unit tests for the geometry primitives, the split decision, and the
//! free-space tracker.

use rectpack::best_bin_finder::CallbackResult;
use rectpack::empty_space_allocators::{DefaultEmptySpaces, StaticEmptySpaces};
use rectpack::empty_spaces::{EmptySpaces, EmptySpacesProviderTrait};
use rectpack::finders_interface::{find_best_packing_dont_sort, Input};
use rectpack::insert_and_split::{insert_and_split, CreatedSplits};
use rectpack::rect_structs::{RectWH, RectXYWH};

#[test]
fn size_helpers() {
    let s = RectWH::new(30, 40);
    assert_eq!(s.area(), 1200);
    assert_eq!(s.perimeter(), 140);
    assert_eq!(s.max_side(), 40);
    assert_eq!(s.min_side(), 30);

    let r = RectXYWH::new(5, 6, 30, 40);
    assert_eq!(r.area(), 1200);
    assert_eq!(r.perimeter(), 140);
    assert_eq!(RectWH::from_xywh(r), RectWH::new(30, 40));
}

#[test]
fn expand_with_covers_the_rectangle() {
    let mut aabb = RectWH::new(0, 0);
    aabb.expand_with(RectXYWH::new(10, 20, 30, 40));
    assert_eq!(aabb, RectWH::new(40, 60));

    aabb.expand_with(RectXYWH::new(0, 0, 5, 100));
    assert_eq!(aabb, RectWH::new(40, 100));
}

#[test]
fn split_perfect_fit_produces_nothing() {
    let r = insert_and_split(RectWH::new(10, 10), RectXYWH::new(0, 0, 10, 10));
    assert!(r.is_valid());
    assert_eq!(r.count, 0);
}

#[test]
fn split_leftover_width_is_one_strip() {
    let r = insert_and_split(RectWH::new(4, 10), RectXYWH::new(0, 0, 10, 10));
    assert_eq!(r.count, 1);
    assert_eq!(r.spaces[0], RectXYWH::new(4, 0, 6, 10));
}

#[test]
fn split_leftover_height_is_one_strip() {
    let r = insert_and_split(RectWH::new(10, 4), RectXYWH::new(0, 0, 10, 10));
    assert_eq!(r.count, 1);
    assert_eq!(r.spaces[0], RectXYWH::new(0, 4, 10, 6));
}

#[test]
fn split_wider_leftover_spans_full_height() {
    let r = insert_and_split(RectWH::new(4, 6), RectXYWH::new(0, 0, 10, 10));
    assert_eq!(r.count, 2);
    assert_eq!(r.spaces[0], RectXYWH::new(4, 0, 6, 10));
    assert_eq!(r.spaces[1], RectXYWH::new(0, 6, 4, 4));
}

#[test]
fn split_taller_leftover_spans_full_width() {
    let r = insert_and_split(RectWH::new(6, 4), RectXYWH::new(0, 0, 10, 10));
    assert_eq!(r.count, 2);
    assert_eq!(r.spaces[0], RectXYWH::new(0, 4, 10, 6));
    assert_eq!(r.spaces[1], RectXYWH::new(6, 0, 4, 4));
}

#[test]
fn split_pieces_tile_the_free_rectangle() {
    let im = RectWH::new(6, 4);
    let sp = RectXYWH::new(3, 7, 10, 10);
    let r = insert_and_split(im, sp);
    assert_eq!(r.count, 2);
    let footprint_area = im.area();
    let pieces_area: i32 = (0..r.count as usize).map(|k| r.spaces[k].area()).sum();
    assert_eq!(footprint_area + pieces_area, sp.area());
}

#[test]
fn split_failure_when_item_does_not_fit() {
    let r = insert_and_split(RectWH::new(11, 5), RectXYWH::new(0, 0, 10, 10));
    assert!(!r.is_valid());
    assert_eq!(r.count, -1);
}

#[test]
fn created_splits_constructors() {
    assert_eq!(CreatedSplits::failed().count, -1);
    assert!(!CreatedSplits::failed().is_valid());
    assert_eq!(CreatedSplits::none().count, 0);
    assert!(CreatedSplits::none().is_valid());

    let a = RectXYWH::new(1, 2, 3, 4);
    let b = RectXYWH::new(5, 6, 7, 8);
    let one = CreatedSplits::unified(a);
    assert_eq!(one.count, 1);
    assert_eq!(one.spaces[0], a);
    let two = CreatedSplits::split(a, b);
    assert_eq!(two.count, 2);
    assert_eq!(two.spaces[0], a);
    assert_eq!(two.spaces[1], b);
}

#[test]
fn tracker_insert_places_and_splits() {
    let mut root = EmptySpaces::<DefaultEmptySpaces>::new(RectWH::new(100, 100));

    let placed = root.insert(RectWH::new(30, 30));
    assert_eq!(placed, Some(RectXYWH::new(0, 0, 30, 30)));
    assert_eq!(root.get_rects_aabb(), RectWH::new(30, 30));
    assert_eq!(root.get_spaces().get_count(), 2);

    let too_big = root.insert(RectWH::new(200, 10));
    assert_eq!(too_big, None);

    root.reset(RectWH::new(50, 50));
    assert_eq!(root.get_rects_aabb(), RectWH::new(0, 0));
    assert_eq!(root.get_spaces().get_count(), 1);
    assert_eq!(root.get_spaces().get(0), RectXYWH::new(0, 0, 50, 50));
}

#[test]
fn fixed_capacity_store_refuses_when_full() {
    // One slot: the two leftovers of a corner placement cannot both be
    // stored, so the insertion degrades to failure.
    let mut small = EmptySpaces::<StaticEmptySpaces<1>>::new(RectWH::new(100, 100));
    assert_eq!(small.insert(RectWH::new(30, 30)), None);

    // A perfect fit needs no leftover slots and still succeeds.
    let mut exact = EmptySpaces::<StaticEmptySpaces<1>>::new(RectWH::new(100, 100));
    assert_eq!(exact.insert(RectWH::new(100, 100)), Some(RectXYWH::new(0, 0, 100, 100)));

    // Two slots are enough for a corner placement.
    let mut roomy = EmptySpaces::<StaticEmptySpaces<2>>::new(RectWH::new(100, 100));
    assert_eq!(roomy.insert(RectWH::new(30, 30)), Some(RectXYWH::new(0, 0, 30, 30)));
}

#[test]
fn dont_sort_packs_in_caller_order() {
    let mut subjects = vec![
        RectXYWH::from_wh(RectWH::new(10, 10)),
        RectXYWH::from_wh(RectWH::new(20, 20)),
    ];

    let mut root = EmptySpaces::<DefaultEmptySpaces>::default();

    let input = Input::new(
        4096,
        4,
        |_| CallbackResult::ContinuePacking,
        |_| CallbackResult::AbortPacking,
    );

    let result = find_best_packing_dont_sort(&mut root, &mut subjects, &input);

    assert_eq!(subjects[0].w, 10);
    assert_eq!(subjects[1].w, 20);
    for s in &subjects {
        assert!(s.x >= 0 && s.y >= 0);
        assert!(s.x + s.w <= result.w);
        assert!(s.y + s.h <= result.h);
    }
    // The two placements must not overlap.
    let (a, b) = (subjects[0], subjects[1]);
    let separated = a.x + a.w <= b.x || b.x + b.w <= a.x || a.y + a.h <= b.y || b.y + b.h <= a.y;
    assert!(separated);
}

#[test]
fn input_new_stores_parameters() {
    let input = Input::new(
        1024,
        -3,
        |_| CallbackResult::ContinuePacking,
        |_| CallbackResult::AbortPacking,
    );
    assert_eq!(input.max_bin_side, 1024);
    assert_eq!(input.discard_step, -3);
}

#[test]
fn negative_discard_step_still_packs() {
    let mut subjects = vec![
        RectXYWH::from_wh(RectWH::new(30, 40)),
        RectXYWH::from_wh(RectWH::new(50, 10)),
    ];

    let mut root = EmptySpaces::<DefaultEmptySpaces>::default();

    let input = Input::new(
        512,
        -2,
        |_| CallbackResult::ContinuePacking,
        |_| CallbackResult::AbortPacking,
    );

    let result = rectpack::finders_interface::find_best_packing(&mut root, &mut subjects, &input);

    for s in &subjects {
        assert!(s.x >= 0 && s.y >= 0);
        assert!(s.x + s.w <= result.w);
        assert!(s.y + s.h <= result.h);
    }
}
