//! End-to-end packing scenarios.

use std::cell::Cell;

use rectpack::best_bin_finder::CallbackResult;
use rectpack::empty_space_allocators::DefaultEmptySpaces;
use rectpack::empty_spaces::EmptySpaces;
use rectpack::finders_interface::{find_best_packing, find_best_packing_ordered, Input, OrderingKey};
use rectpack::rect_structs::{RectWH, RectXYWH};

#[test]
fn basic_usage() {
    let mut subjects = vec![
        RectXYWH::from_wh(RectWH::new(30, 40)),
        RectXYWH::from_wh(RectWH::new(256, 256)),
        RectXYWH::from_wh(RectWH::new(128, 512)),
        RectXYWH::from_wh(RectWH::new(512, 128)),
    ];

    let mut root = EmptySpaces::<DefaultEmptySpaces>::default();

    let input = Input {
        max_bin_side: 4096,
        discard_step: 4,
        handle_successful_insertion: |_| CallbackResult::ContinuePacking,
        handle_unsuccessful_insertion: |_| CallbackResult::AbortPacking,
    };

    let result = find_best_packing(&mut root, &mut subjects, &input);

    assert_eq!(result, RectWH::new(640, 512));
    assert_eq!(
        subjects,
        vec![
            RectXYWH::new(128, 384, 30, 40),
            RectXYWH::new(128, 0, 256, 256),
            RectXYWH::new(0, 0, 128, 512),
            RectXYWH::new(128, 256, 512, 128),
        ]
    )
}

#[test]
fn structured() {
    #[derive(Debug, PartialEq)]
    struct Foo(RectXYWH);

    let mut subjects = [
        Foo(RectXYWH::from_wh(RectWH::new(100, 40))), // top
        Foo(RectXYWH::from_wh(RectWH::new(40, 20))),  // center
        Foo(RectXYWH::from_wh(RectWH::new(70, 20))),  // bottom
        Foo(RectXYWH::from_wh(RectWH::new(30, 40))),  // left
        Foo(RectXYWH::from_wh(RectWH::new(30, 20))),  // right
    ];

    let mut rects: Vec<RectXYWH> = subjects.iter().map(|s| s.0).collect();

    let mut root = EmptySpaces::<DefaultEmptySpaces>::default();

    let input = Input {
        max_bin_side: 4096,
        discard_step: 4,
        handle_successful_insertion: |_| CallbackResult::ContinuePacking,
        handle_unsuccessful_insertion: |_| CallbackResult::AbortPacking,
    };

    let result = find_best_packing(&mut root, &mut rects, &input);

    for (subject, rect) in subjects.iter_mut().zip(rects.iter()) {
        subject.0 = *rect;
    }

    println!("{result:?}");
    println!("{subjects:?}")
}

#[test]
fn single_item_fills_whole_bin() {
    let mut subjects = vec![RectXYWH::from_wh(RectWH::new(4096, 4096))];

    let mut root = EmptySpaces::<DefaultEmptySpaces>::default();

    let input = Input {
        max_bin_side: 4096,
        discard_step: 4,
        handle_successful_insertion: |_| CallbackResult::ContinuePacking,
        handle_unsuccessful_insertion: |_| CallbackResult::ContinuePacking,
    };

    let result = find_best_packing(&mut root, &mut subjects, &input);

    assert_eq!(result, RectWH::new(4096, 4096));
    assert_eq!(subjects, vec![RectXYWH::new(0, 0, 4096, 4096)]);
}

#[test]
fn overflowing_items_report_failures() {
    let mut subjects = vec![
        RectXYWH::from_wh(RectWH::new(100, 100)),
        RectXYWH::from_wh(RectWH::new(100, 100)),
    ];

    let mut root = EmptySpaces::<DefaultEmptySpaces>::default();

    let successes: Cell<u32> = Cell::new(0);
    let failures: Cell<u32> = Cell::new(0);

    let input = Input {
        max_bin_side: 100,
        discard_step: 4,
        handle_successful_insertion: |_| {
            successes.set(successes.get() + 1);
            CallbackResult::ContinuePacking
        },
        handle_unsuccessful_insertion: |_| {
            failures.set(failures.get() + 1);
            CallbackResult::ContinuePacking
        },
    };

    let result = find_best_packing(&mut root, &mut subjects, &input);

    // Only one of the two 100x100 items fits in a 100x100 budget; the other
    // must be reported through the failure callback and left untouched.
    assert_eq!(successes.get(), 1);
    assert_eq!(failures.get(), 1);
    assert_eq!(result, RectWH::new(100, 100));
    assert_eq!(subjects[0], RectXYWH::new(0, 0, 100, 100));
    assert_eq!(subjects[1], RectXYWH::new(0, 0, 100, 100));
}

#[test]
fn identical_inputs_give_identical_packings() {
    let items = [
        RectWH::new(30, 40),
        RectWH::new(70, 20),
        RectWH::new(12, 300),
        RectWH::new(31, 31),
        RectWH::new(7, 9),
    ];

    let mut first_subjects: Vec<RectXYWH> = items.iter().map(|s| RectXYWH::from_wh(*s)).collect();
    let mut second_subjects: Vec<RectXYWH> = items.iter().map(|s| RectXYWH::from_wh(*s)).collect();

    let input = Input {
        max_bin_side: 1024,
        discard_step: 1,
        handle_successful_insertion: |_| CallbackResult::ContinuePacking,
        handle_unsuccessful_insertion: |_| CallbackResult::AbortPacking,
    };

    let mut first_root = EmptySpaces::<DefaultEmptySpaces>::default();
    let first_result = find_best_packing(&mut first_root, &mut first_subjects, &input);

    let mut second_root = EmptySpaces::<DefaultEmptySpaces>::default();
    let second_result = find_best_packing(&mut second_root, &mut second_subjects, &input);

    assert_eq!(first_result, second_result);
    assert_eq!(first_subjects, second_subjects);
}

#[test]
fn zero_area_subjects_are_left_untouched() {
    let mut subjects = vec![
        RectXYWH::from_wh(RectWH::new(0, 50)),
        RectXYWH::from_wh(RectWH::new(30, 40)),
        RectXYWH::from_wh(RectWH::new(50, 0)),
    ];

    let mut root = EmptySpaces::<DefaultEmptySpaces>::default();

    let input = Input {
        max_bin_side: 4096,
        discard_step: 4,
        handle_successful_insertion: |_| CallbackResult::ContinuePacking,
        handle_unsuccessful_insertion: |_| CallbackResult::AbortPacking,
    };

    let result = find_best_packing(&mut root, &mut subjects, &input);

    assert_eq!(subjects[0], RectXYWH::new(0, 0, 0, 50));
    assert_eq!(subjects[2], RectXYWH::new(0, 0, 50, 0));
    assert_eq!(subjects[1], RectXYWH::new(0, 0, 30, 40));
    assert_eq!(result, RectWH::new(30, 40));
}

#[test]
fn ordered_packing_with_no_keys_packs_nothing() {
    let mut subjects = vec![RectXYWH::from_wh(RectWH::new(30, 40))];

    let mut root = EmptySpaces::<DefaultEmptySpaces>::default();

    let input = Input::new(
        4096,
        4,
        |_| CallbackResult::ContinuePacking,
        |_| CallbackResult::AbortPacking,
    );

    let keys: Vec<OrderingKey> = Vec::new();
    let result = find_best_packing_ordered(&mut root, &mut subjects, &input, &keys);

    assert_eq!(result, RectWH::new(0, 0));
    assert_eq!(subjects, vec![RectXYWH::new(0, 0, 30, 40)]);
}

#[test]
fn ordered_packing_single_key() {
    let mut subjects = vec![
        RectXYWH::from_wh(RectWH::new(30, 40)),
        RectXYWH::from_wh(RectWH::new(50, 10)),
    ];

    let mut root = EmptySpaces::<DefaultEmptySpaces>::default();

    let input = Input::new(
        4096,
        4,
        |_| CallbackResult::ContinuePacking,
        |_| CallbackResult::AbortPacking,
    );

    let keys = vec![OrderingKey::Width];
    let result = find_best_packing_ordered(&mut root, &mut subjects, &input, &keys);

    // Every subject keeps its size and lands inside the reported bin.
    assert_eq!(subjects[0].w, 30);
    assert_eq!(subjects[0].h, 40);
    assert_eq!(subjects[1].w, 50);
    assert_eq!(subjects[1].h, 10);
    for s in &subjects {
        assert!(s.x >= 0 && s.y >= 0);
        assert!(s.x + s.w <= result.w);
        assert!(s.y + s.h <= result.h);
    }
}
