//! Geometry primitives: dimension-only sizes and positioned rectangles,
//! together with the spec-level notions (disjointness, containment, bounding
//! boxes, area sums) that the rest of the crate states its contracts with.

use vstd::prelude::*;

verus! {

use vstd::math::max;

/// Type used to report a total placed area.
pub type TotalAreaType = i32;

/// Upper bound on the width/height of a packable item.
pub const DIM_LIMIT: i32 = 0x0400_0000;

/// Bound on the magnitude of a bin side held by a free-space tracker.
pub const COORD_LIMIT: i32 = 0x1000_0000;

/// Bound on the magnitude of a starting bin side for the best-bin search.
pub const SEARCH_LIMIT: i32 = 0x0200_0000;

/// Bound on the magnitude of the discard-step search parameter.
pub const DISCARD_LIMIT: i32 = 0x0010_0000;

/// Largest accepted `max_bin_side`: its square still fits in an `i32`.
pub const MAX_BIN_SIDE_LIMIT: i32 = 46340;

/// A width/height pair, without a position.
#[derive(Clone, Copy, Debug, PartialEq, Eq, Structural)]
pub struct RectWH {
    pub w: i32,
    pub h: i32,
}

/// A rectangle anchored at `(x, y)`, spanning `w` by `h`.
#[derive(Clone, Copy, Debug, PartialEq, Eq, Structural)]
pub struct RectXYWH {
    pub x: i32,
    pub y: i32,
    pub w: i32,
    pub h: i32,
}

/// The two rectangles share no interior point.  A rectangle with a
/// non-positive side has no interior, so it is disjoint from everything.
pub open spec fn rect_disjoint(a: RectXYWH, b: RectXYWH) -> bool {
    a.w <= 0 || a.h <= 0 || b.w <= 0 || b.h <= 0 || a.x + a.w <= b.x || b.x + b.w <= a.x || a.y
        + a.h <= b.y || b.y + b.h <= a.y
}

/// `r` lies within `[0, bin.w) x [0, bin.h)`.
pub open spec fn rect_in_bin(r: RectXYWH, bin: RectWH) -> bool {
    0 <= r.x && 0 <= r.y && r.x + r.w <= bin.w && r.y + r.h <= bin.h
}

/// `inner` lies within the extent of `outer`.
pub open spec fn rect_inside(inner: RectXYWH, outer: RectXYWH) -> bool {
    outer.x <= inner.x && outer.y <= inner.y && inner.x + inner.w <= outer.x + outer.w && inner.y
        + inner.h <= outer.y + outer.h
}

/// The point `(px, py)` lies inside `r` (half-open on both axes).
pub open spec fn rect_contains_point(r: RectXYWH, px: int, py: int) -> bool {
    r.x <= px < r.x + r.w && r.y <= py < r.y + r.h
}

/// Width of the tight bounding box of the rectangles in `s`, starting from 0.
pub open spec fn aabb_w(s: Seq<RectXYWH>) -> int
    decreases s.len(),
{
    if s.len() == 0 {
        0
    } else {
        max(aabb_w(s.drop_last()), s.last().x + s.last().w)
    }
}

/// Height of the tight bounding box of the rectangles in `s`, starting from 0.
pub open spec fn aabb_h(s: Seq<RectXYWH>) -> int
    decreases s.len(),
{
    if s.len() == 0 {
        0
    } else {
        max(aabb_h(s.drop_last()), s.last().y + s.last().h)
    }
}

/// The bounding box covers every rectangle that went into it.
pub proof fn lemma_aabb_covers(s: Seq<RectXYWH>, i: int)
    requires
        0 <= i < s.len(),
    ensures
        s[i].x + s[i].w <= aabb_w(s),
        s[i].y + s[i].h <= aabb_h(s),
    decreases s.len(),
{
    if i < s.len() - 1 {
        lemma_aabb_covers(s.drop_last(), i);
        assert(s.drop_last()[i] == s[i]);
    }
}

/// A bounding box never has negative sides.
pub proof fn lemma_aabb_nonneg(s: Seq<RectXYWH>)
    ensures
        aabb_w(s) >= 0,
        aabb_h(s) >= 0,
    decreases s.len(),
{
    if s.len() > 0 {
        lemma_aabb_nonneg(s.drop_last());
    }
}

/// The bounding box of rectangles that all reach at most `(wb, hb)` reaches
/// at most `(wb, hb)` itself (or zero, for an empty set).
pub proof fn lemma_aabb_le(s: Seq<RectXYWH>, wb: int, hb: int)
    requires
        forall|k: int| 0 <= k < s.len() ==> (#[trigger] s[k]).x + s[k].w <= wb && s[k].y + s[k].h
            <= hb,
    ensures
        aabb_w(s) <= vstd::math::max(wb, 0),
        aabb_h(s) <= vstd::math::max(hb, 0),
    decreases s.len(),
{
    if s.len() > 0 {
        lemma_aabb_le(s.drop_last(), wb, hb);
    }
}

/// `pl` is the sequence of rectangles actually placed by a packing run, `m`
/// says which subject received which placement, and `owners` names, for each
/// placement, the subject that received it: placed subjects (the domain of
/// `m`) had positive sides and now hold exactly their placement; every other
/// subject is untouched; distinct subjects hold distinct placements; and
/// every placement belongs to some subject.
pub open spec fn placement_map_ok(
    before: Seq<RectXYWH>,
    after: Seq<RectXYWH>,
    pl: Seq<RectXYWH>,
    m: Map<int, int>,
    owners: Seq<int>,
) -> bool {
    &&& forall|i: int|
        #[trigger] m.dom().contains(i) ==> 0 <= i < before.len() && 0 <= m[i] < pl.len()
            && after[i] == pl[m[i]] && before[i].w > 0 && before[i].h > 0
    &&& forall|i1: int, i2: int|
        m.dom().contains(i1) && m.dom().contains(i2) && i1 != i2 ==> m[i1] != m[i2]
    &&& forall|i: int| 0 <= i < before.len() && !m.dom().contains(i) ==> after[i] == before[i]
    &&& owners.len() == pl.len()
    &&& forall|k: int|
        0 <= k < owners.len() ==> m.dom().contains(#[trigger] owners[k]) && m[owners[k]] == k
}

/// What a whole packing run guarantees about the caller's rectangles.
/// Every rectangle keeps its size and zero-area rectangles are left
/// completely untouched.  There is a set of placed rectangles, mapped
/// one-to-one onto the subjects that received them: the placements have
/// positive sides, lie within `[0, result.w) x [0, result.h)`, are mutually
/// disjoint, and `result` is exactly their tight bounding box — so a
/// zero-size result is possible only when nothing was placed.
pub open spec fn packing_outcome(before: Seq<RectXYWH>, after: Seq<RectXYWH>, result: RectWH) -> bool {
    &&& after.len() == before.len()
    &&& forall|i: int|
        0 <= i < before.len() ==> (#[trigger] after[i]).w == before[i].w && after[i].h
            == before[i].h
    &&& forall|i: int|
        0 <= i < before.len() && (before[i].w == 0 || before[i].h == 0) ==> #[trigger] after[i]
            == before[i]
    &&& result.w >= 0
    &&& result.h >= 0
    &&& exists|pl: Seq<RectXYWH>, m: Map<int, int>, owners: Seq<int>|
        {
            &&& #[trigger] placement_map_ok(before, after, pl, m, owners)
            &&& forall|k: int|
                0 <= k < pl.len() ==> (#[trigger] pl[k]).x >= 0 && pl[k].y >= 0 && pl[k].w > 0
                    && pl[k].h > 0 && pl[k].x + pl[k].w <= result.w && pl[k].y + pl[k].h
                    <= result.h
            &&& forall|k1: int, k2: int|
                0 <= k1 < k2 < pl.len() ==> rect_disjoint(#[trigger] pl[k1], #[trigger] pl[k2])
            &&& result.w == aabb_w(pl)
            &&& result.h == aabb_h(pl)
        }
}

/// An item size within the accepted machine limits.
pub open spec fn size_within_limits(s: RectWH) -> bool {
    0 <= s.w <= DIM_LIMIT && 0 <= s.h <= DIM_LIMIT
}

/// A free-space rectangle within the accepted machine limits: non-negative
/// anchor, bounded extent (the sides may be non-positive for a degenerate
/// space seeded from a degenerate bin).
pub open spec fn space_within_limits(s: RectXYWH) -> bool {
    0 <= s.x <= 2 * COORD_LIMIT && 0 <= s.y <= 2 * COORD_LIMIT && -COORD_LIMIT <= s.w
        <= COORD_LIMIT && -COORD_LIMIT <= s.h <= COORD_LIMIT
}

/// The rectangle an item of size `im` occupies when placed into the free
/// rectangle `sp`: anchored at `sp`'s corner, spanning the item's size.
pub open spec fn placed_rect(im: RectWH, sp: RectXYWH) -> RectXYWH {
    RectXYWH { x: sp.x, y: sp.y, w: im.w, h: im.h }
}

/// An item admissible for packing: non-negative sides, both within
/// `DIM_LIMIT`, and an area that fits in an `i32`.
pub open spec fn item_fits_limits(r: RectXYWH) -> bool {
    0 <= r.w <= DIM_LIMIT && 0 <= r.h <= DIM_LIMIT && r.w * r.h <= i32::MAX
}

/// Sum of the areas of all rectangles in `s`.
pub open spec fn area_sum(s: Seq<RectXYWH>) -> int
    decreases s.len(),
{
    if s.len() == 0 {
        0
    } else {
        area_sum(s.drop_last()) + s.last().w * s.last().h
    }
}

/// A set of packable subjects: every entry within the size limits, and the
/// total area within `i32::MAX`, so that partial area sums never overflow.
pub open spec fn valid_subjects(s: Seq<RectXYWH>) -> bool {
    (forall|i: int| 0 <= i < s.len() ==> item_fits_limits(#[trigger] s[i])) && area_sum(s)
        <= i32::MAX
}

impl RectWH {
    pub fn new(w: i32, h: i32) -> (r: Self)
        ensures
            r.w == w,
            r.h == h,
    {
        Self { w, h }
    }

    pub fn from_xywh(xywh: RectXYWH) -> (r: Self)
        ensures
            r.w == xywh.w,
            r.h == xywh.h,
    {
        Self::new(xywh.w, xywh.h)
    }

    pub fn max_side(&self) -> (r: i32)
        ensures
            r == max(self.w as int, self.h as int),
    {
        if self.w >= self.h {
            self.w
        } else {
            self.h
        }
    }

    pub fn min_side(&self) -> (r: i32)
        ensures
            r == vstd::math::min(self.w as int, self.h as int),
    {
        if self.w <= self.h {
            self.w
        } else {
            self.h
        }
    }

    pub fn area(&self) -> (r: i32)
        requires
            i32::MIN <= self.w * self.h <= i32::MAX,
        ensures
            r == self.w * self.h,
    {
        self.w * self.h
    }

    pub fn perimeter(&self) -> (r: i32)
        requires
            i32::MIN <= 2 * self.w + 2 * self.h <= i32::MAX,
            i32::MIN <= 2 * self.w <= i32::MAX,
            i32::MIN <= 2 * self.h <= i32::MAX,
        ensures
            r == 2 * self.w + 2 * self.h,
    {
        2 * self.w + 2 * self.h
    }

    /// Grow this size so that it also covers `r`.
    pub fn expand_with(&mut self, r: RectXYWH)
        requires
            i32::MIN <= r.x + r.w <= i32::MAX,
            i32::MIN <= r.y + r.h <= i32::MAX,
        ensures
            final(self).w == max(old(self).w as int, r.x + r.w),
            final(self).h == max(old(self).h as int, r.y + r.h),
    {
        let reach_w: i32 = r.x + r.w;
        let reach_h: i32 = r.y + r.h;
        if reach_w > self.w {
            self.w = reach_w;
        }
        if reach_h > self.h {
            self.h = reach_h;
        }
    }
}

impl Default for RectWH {
    fn default() -> (r: Self)
        ensures
            r.w == 0,
            r.h == 0,
    {
        Self { w: 0, h: 0 }
    }
}

impl RectXYWH {
    pub fn new(x: i32, y: i32, w: i32, h: i32) -> (r: Self)
        ensures
            r == (RectXYWH { x, y, w, h }),
    {
        Self { x, y, w, h }
    }

    pub fn from_wh(wh: RectWH) -> (r: Self)
        ensures
            r == (RectXYWH { x: 0, y: 0, w: wh.w, h: wh.h }),
    {
        Self::new(0, 0, wh.w, wh.h)
    }

    pub fn area(&self) -> (r: i32)
        requires
            i32::MIN <= self.w * self.h <= i32::MAX,
        ensures
            r == self.w * self.h,
    {
        self.w * self.h
    }

    pub fn perimeter(&self) -> (r: i32)
        requires
            i32::MIN <= 2 * self.w + 2 * self.h <= i32::MAX,
            i32::MIN <= 2 * self.w <= i32::MAX,
            i32::MIN <= 2 * self.h <= i32::MAX,
        ensures
            r == 2 * self.w + 2 * self.h,
    {
        2 * self.w + 2 * self.h
    }
}

impl Default for RectXYWH {
    fn default() -> (r: Self)
        ensures
            r == (RectXYWH { x: 0, y: 0, w: 0, h: 0 }),
    {
        Self { x: 0, y: 0, w: 0, h: 0 }
    }
}

} // verus!
