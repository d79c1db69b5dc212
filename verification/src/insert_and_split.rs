//! The guillotine split decision: given an item size and a chosen free
//! rectangle, produce the zero, one, or two leftover free rectangles, or a
//! failure marker when the item does not fit.

use vstd::prelude::*;

verus! {

use crate::rect_structs::{
    RectWH,
    RectXYWH,
    rect_contains_point,
    rect_disjoint,
    rect_inside,
    placed_rect,
    size_within_limits,
    space_within_limits,
};

/// The outcome of a split decision: `count` is `-1` when the item does not
/// fit, otherwise the number of leftover rectangles held in `spaces`.
pub struct CreatedSplits {
    pub count: i32,
    pub spaces: [RectXYWH; 2],
}

impl CreatedSplits {
    pub fn failed() -> (r: Self)
        ensures
            r.count == -1,
            r.spaces@[0] == (RectXYWH { x: 0, y: 0, w: 0, h: 0 }),
            r.spaces@[1] == (RectXYWH { x: 0, y: 0, w: 0, h: 0 }),
    {
        Self { count: -1, spaces: [RectXYWH::new(0, 0, 0, 0), RectXYWH::new(0, 0, 0, 0)] }
    }

    pub fn none() -> (r: Self)
        ensures
            r.count == 0,
            r.spaces@[0] == (RectXYWH { x: 0, y: 0, w: 0, h: 0 }),
            r.spaces@[1] == (RectXYWH { x: 0, y: 0, w: 0, h: 0 }),
    {
        Self { count: 0, spaces: [RectXYWH::new(0, 0, 0, 0), RectXYWH::new(0, 0, 0, 0)] }
    }

    pub fn unified(first: RectXYWH) -> (r: Self)
        ensures
            r.count == 1,
            r.spaces@[0] == first,
            r.spaces@[1] == (RectXYWH { x: 0, y: 0, w: 0, h: 0 }),
    {
        Self { count: 1, spaces: [first, RectXYWH::new(0, 0, 0, 0)] }
    }

    pub fn split(first: RectXYWH, second: RectXYWH) -> (r: Self)
        ensures
            r.count == 2,
            r.spaces@[0] == first,
            r.spaces@[1] == second,
    {
        Self { count: 2, spaces: [first, second] }
    }

    pub fn is_valid(&self) -> (r: bool)
        ensures
            r == (self.count != -1),
    {
        self.count != -1
    }
}

/// The leftover rectangles the guillotine split produces for a fitting pair,
/// in the order they are handed to the free-space store.
pub open spec fn guillotine_pieces(im: RectWH, sp: RectXYWH) -> Seq<RectXYWH> {
    let fw = sp.w - im.w;
    let fh = sp.h - im.h;
    if fw < 0 || fh < 0 || (fw == 0 && fh == 0) {
        Seq::empty()
    } else if fw > 0 && fh == 0 {
        seq![RectXYWH { x: (sp.x + im.w) as i32, y: sp.y, w: fw as i32, h: sp.h }]
    } else if fw == 0 {
        seq![RectXYWH { x: sp.x, y: (sp.y + im.h) as i32, w: sp.w, h: fh as i32 }]
    } else if fw > fh {
        seq![
            RectXYWH { x: (sp.x + im.w) as i32, y: sp.y, w: fw as i32, h: sp.h },
            RectXYWH { x: sp.x, y: (sp.y + im.h) as i32, w: im.w, h: fh as i32 },
        ]
    } else {
        seq![
            RectXYWH { x: sp.x, y: (sp.y + im.h) as i32, w: sp.w, h: fh as i32 },
            RectXYWH { x: (sp.x + im.w) as i32, y: sp.y, w: fw as i32, h: im.h },
        ]
    }
}

/// Decide how the free rectangle `sp` is cut up when an item of size `im` is
/// placed into its corner.  Fails (rather than trapping) when the item does
/// not fit, so it can also be called speculatively to test fit.
///
/// The contract pins down the exact rectangles produced, and states the
/// guillotine-split correctness property: the leftover rectangles are
/// positive, lie inside `sp`, are mutually disjoint and disjoint from the
/// item's footprint, and together with the footprint they cover every point
/// of `sp`.
pub fn insert_and_split(im: RectWH, sp: RectXYWH) -> (r: CreatedSplits)
    requires
        size_within_limits(im),
        space_within_limits(sp),
    ensures
        -1 <= r.count <= 2,
        (r.count == -1) <==> (sp.w - im.w < 0 || sp.h - im.h < 0),
        (r.count == 0) <==> (sp.w - im.w == 0 && sp.h - im.h == 0),
        (r.count == 1) <==> ((sp.w - im.w > 0 && sp.h - im.h == 0) || (sp.w - im.w == 0 && sp.h
            - im.h > 0)),
        (r.count == 2) <==> (sp.w - im.w > 0 && sp.h - im.h > 0),
        forall|k: int|
            0 <= k < 2 && r.count <= k ==> #[trigger] r.spaces@[k] == (RectXYWH {
                x: 0,
                y: 0,
                w: 0,
                h: 0,
            }),
        r.count >= 0 ==> r.spaces@.subrange(0, r.count as int) == guillotine_pieces(im, sp),
        r.count == 1 && sp.h - im.h == 0 ==> r.spaces@[0] == (RectXYWH {
            x: (sp.x + im.w) as i32,
            y: sp.y,
            w: (sp.w - im.w) as i32,
            h: sp.h,
        }),
        r.count == 1 && sp.w - im.w == 0 ==> r.spaces@[0] == (RectXYWH {
            x: sp.x,
            y: (sp.y + im.h) as i32,
            w: sp.w,
            h: (sp.h - im.h) as i32,
        }),
        r.count == 2 && sp.w - im.w > sp.h - im.h ==> r.spaces@[0] == (RectXYWH {
            x: (sp.x + im.w) as i32,
            y: sp.y,
            w: (sp.w - im.w) as i32,
            h: sp.h,
        }) && r.spaces@[1] == (RectXYWH {
            x: sp.x,
            y: (sp.y + im.h) as i32,
            w: im.w,
            h: (sp.h - im.h) as i32,
        }),
        r.count == 2 && sp.w - im.w <= sp.h - im.h ==> r.spaces@[0] == (RectXYWH {
            x: sp.x,
            y: (sp.y + im.h) as i32,
            w: sp.w,
            h: (sp.h - im.h) as i32,
        }) && r.spaces@[1] == (RectXYWH {
            x: (sp.x + im.w) as i32,
            y: sp.y,
            w: (sp.w - im.w) as i32,
            h: im.h,
        }),
        forall|k: int|
            0 <= k < r.count ==> {
                &&& (#[trigger] r.spaces@[k]).w >= 0
                &&& r.spaces@[k].h >= 0
                &&& (im.w > 0 && im.h > 0 ==> r.spaces@[k].w > 0 && r.spaces@[k].h > 0)
                &&& rect_inside(r.spaces@[k], sp)
                &&& rect_disjoint(placed_rect(im, sp), r.spaces@[k])
            },
        r.count == 2 ==> rect_disjoint(r.spaces@[0], r.spaces@[1]),
        r.count >= 0 ==> forall|px: int, py: int|
            #![trigger rect_contains_point(sp, px, py)]
            rect_contains_point(sp, px, py) <==> (rect_contains_point(placed_rect(im, sp), px, py)
                || exists|k: int| 0 <= k < r.count && rect_contains_point(#[trigger] r.spaces@[k], px, py)),
{
    let free_w: i32 = sp.w - im.w;
    let free_h: i32 = sp.h - im.h;

    if free_w < 0 || free_h < 0 {
        return CreatedSplits::failed();
    }

    if free_w == 0 && free_h == 0 {
        let ret = CreatedSplits::none();
        proof {
            assert(ret.spaces@.subrange(0, 0) =~= guillotine_pieces(im, sp));
        }
        return ret;
    }

    if free_w > 0 && free_h == 0 {
        let mut r = sp;
        r.x = r.x + im.w;
        r.w = r.w - im.w;

        let ret = CreatedSplits::unified(r);
        proof {
            assert(rect_inside(ret.spaces@[0], sp));
            assert(rect_disjoint(placed_rect(im, sp), ret.spaces@[0]));
            lemma_pieces_cover(im, sp, ret);
            assert(ret.spaces@.subrange(0, 1) =~= guillotine_pieces(im, sp));
        }
        return ret;
    }

    if free_w == 0 && free_h > 0 {
        let mut r = sp;
        r.y = r.y + im.h;
        r.h = r.h - im.h;

        let ret = CreatedSplits::unified(r);
        proof {
            assert(rect_inside(ret.spaces@[0], sp));
            assert(rect_disjoint(placed_rect(im, sp), ret.spaces@[0]));
            lemma_pieces_cover(im, sp, ret);
            assert(ret.spaces@.subrange(0, 1) =~= guillotine_pieces(im, sp));
        }
        return ret;
    }

    if free_w > free_h {
        let bigger_split = RectXYWH::new(sp.x + im.w, sp.y, free_w, sp.h);
        let lesser_split = RectXYWH::new(sp.x, sp.y + im.h, im.w, free_h);

        let ret = CreatedSplits::split(bigger_split, lesser_split);
        proof {
            assert(rect_inside(ret.spaces@[0], sp));
            assert(rect_disjoint(placed_rect(im, sp), ret.spaces@[0]));
            assert(rect_inside(ret.spaces@[1], sp));
            assert(rect_disjoint(placed_rect(im, sp), ret.spaces@[1]));
            lemma_pieces_cover(im, sp, ret);
            assert(ret.spaces@.subrange(0, 2) =~= guillotine_pieces(im, sp));
        }
        return ret;
    }

    let bigger_split = RectXYWH::new(sp.x, sp.y + im.h, sp.w, free_h);
    let lesser_split = RectXYWH::new(sp.x + im.w, sp.y, free_w, im.h);

    let ret = CreatedSplits::split(bigger_split, lesser_split);
    proof {
        assert(rect_inside(ret.spaces@[0], sp));
        assert(rect_disjoint(placed_rect(im, sp), ret.spaces@[0]));
        assert(rect_inside(ret.spaces@[1], sp));
        assert(rect_disjoint(placed_rect(im, sp), ret.spaces@[1]));
        lemma_pieces_cover(im, sp, ret);
        assert(ret.spaces@.subrange(0, 2) =~= guillotine_pieces(im, sp));
    }
    ret
}

/// Every point of `sp` lies in the item's footprint or in one of the split
/// pieces, given that the pieces fill the leftover strips exactly.
proof fn lemma_pieces_cover(im: RectWH, sp: RectXYWH, r: CreatedSplits)
    requires
        size_within_limits(im),
        space_within_limits(sp),
        0 <= sp.w - im.w,
        0 <= sp.h - im.h,
        0 <= r.count <= 2,
        r.count >= 1 ==> rect_inside(r.spaces@[0], sp),
        r.count == 2 ==> rect_inside(r.spaces@[1], sp),
        covers_leftover(im, sp, r),
    ensures
        forall|px: int, py: int|
            #![trigger rect_contains_point(sp, px, py)]
            rect_contains_point(sp, px, py) <==> (rect_contains_point(placed_rect(im, sp), px, py)
                || exists|k: int| 0 <= k < r.count && rect_contains_point(#[trigger] r.spaces@[k], px, py)),
{
    assert forall|px: int, py: int|
        rect_contains_point(sp, px, py) implies (rect_contains_point(placed_rect(im, sp), px, py)
        || exists|k: int| 0 <= k < r.count && rect_contains_point(#[trigger] r.spaces@[k], px, py)) by {
        if !rect_contains_point(placed_rect(im, sp), px, py) {
            assert(covered_by_piece(im, sp, r, px, py));
        }
    }
    assert forall|px: int, py: int|
        (rect_contains_point(placed_rect(im, sp), px, py) || exists|k: int|
            0 <= k < r.count && rect_contains_point(#[trigger] r.spaces@[k], px, py)) implies rect_contains_point(
        sp,
        px,
        py,
    ) by {
        if !rect_contains_point(placed_rect(im, sp), px, py) {
            let k = choose|k: int| 0 <= k < r.count && rect_contains_point(r.spaces@[k], px, py);
            assert(rect_inside(r.spaces@[k], sp));
        }
    }
}

/// Any point of `sp` outside the item's footprint lies in one of the pieces.
spec fn covered_by_piece(im: RectWH, sp: RectXYWH, r: CreatedSplits, px: int, py: int) -> bool {
    exists|k: int| 0 <= k < r.count && rect_contains_point(#[trigger] r.spaces@[k], px, py)
}

/// The pieces of `r` cover exactly the part of `sp` outside the footprint.
spec fn covers_leftover(im: RectWH, sp: RectXYWH, r: CreatedSplits) -> bool {
    forall|px: int, py: int|
        (rect_contains_point(sp, px, py) && !rect_contains_point(placed_rect(im, sp), px, py))
            ==> covered_by_piece(im, sp, r, px, py)
}

} // verus!
