//! The free-space tracker: owns a store of unoccupied rectangles and the
//! running bounding box of everything placed since the last reset.  Its
//! invariant carries the central guarantees of the packer: free rectangles
//! never overlap each other or any placed rectangle, placed rectangles never
//! overlap each other, and everything stays inside the bin.

use vstd::prelude::*;

verus! {

use crate::insert_and_split::{CreatedSplits, guillotine_pieces, insert_and_split};
use crate::rect_structs::{
    COORD_LIMIT,
    RectWH,
    RectXYWH,
    aabb_h,
    aabb_w,
    placed_rect,
    rect_disjoint,
    rect_in_bin,
    rect_inside,
    size_within_limits,
    space_within_limits,
};

/// A free rectangle as the tracker may hold it: anchored inside the bin,
/// reaching no further than the bin's sides, with bounded (possibly
/// non-positive, for a degenerate bin) extent.
pub open spec fn space_in_bin(s: RectXYWH, bin: RectWH) -> bool {
    &&& 0 <= s.x
    &&& 0 <= s.y
    &&& s.x + s.w <= bin.w
    &&& s.y + s.h <= bin.h
    &&& -COORD_LIMIT <= s.w
    &&& -COORD_LIMIT <= s.h
}

/// A placed rectangle: within the bin, with non-negative sides.
pub open spec fn placed_in_bin(r: RectXYWH, bin: RectWH) -> bool {
    rect_in_bin(r, bin) && r.w >= 0 && r.h >= 0
}

/// An item of size `im` fits into the free rectangle `sp`.
pub open spec fn space_fits(sp: RectXYWH, im: RectWH) -> bool {
    sp.w - im.w >= 0 && sp.h - im.h >= 0
}

/// Interface of a free-space store: an unordered set of rectangles addressed
/// by index, where removal may swap the last element into the hole, and
/// insertion may refuse (the fixed-capacity store does so when full).
pub trait EmptySpacesProviderTrait: Sized {
    /// The rectangles currently held, in storage order.
    spec fn spaces(&self) -> Seq<RectXYWH>;

    /// Whether this store accepts every insertion (the growable store does;
    /// a fixed-capacity store does not).
    spec fn unbounded() -> bool;

    /// A store holding nothing.
    fn empty() -> (s: Self)
        ensures
            s.spaces() == Seq::<RectXYWH>::empty(),
    ;

    fn reset(&mut self)
        ensures
            final(self).spaces() == Seq::<RectXYWH>::empty(),
    ;

    fn get(&self, i: usize) -> (r: RectXYWH)
        requires
            i < self.spaces().len(),
        ensures
            r == self.spaces()[i as int],
    ;

    fn get_count(&self) -> (n: usize)
        ensures
            n == self.spaces().len(),
    ;

    fn remove(&mut self, i: usize)
        requires
            i < old(self).spaces().len(),
        ensures
            final(self).spaces() == old(self).spaces().update(
                i as int,
                old(self).spaces().last(),
            ).drop_last(),
    ;

    fn add(&mut self, rect: RectXYWH) -> (ok: bool)
        ensures
            ok ==> final(self).spaces() == old(self).spaces().push(rect),
            !ok ==> final(self).spaces() == old(self).spaces(),
            Self::unbounded() ==> ok,
    ;
}

/// The free-space tracker: one store of free rectangles plus the bounding box
/// of everything placed since the last reset.
pub struct EmptySpaces<EmptySpacesProvider: EmptySpacesProviderTrait> {
    current_aabb: RectWH,
    spaces: EmptySpacesProvider,
    placed: Ghost<Seq<RectXYWH>>,
    bin: Ghost<RectWH>,
}

impl<EmptySpacesProvider: EmptySpacesProviderTrait> EmptySpaces<EmptySpacesProvider> {
    /// The rectangles placed since the last reset, in placement order.
    pub closed spec fn placed(&self) -> Seq<RectXYWH> {
        self.placed@
    }

    /// The bin this tracker was last reset to.
    pub closed spec fn bin(&self) -> RectWH {
        self.bin@
    }

    /// The free rectangles currently held.
    pub closed spec fn free_spaces(&self) -> Seq<RectXYWH> {
        self.spaces.spaces()
    }

    /// The tracker's invariant: free rectangles lie in the bin and are
    /// mutually disjoint and disjoint from every placed rectangle; placed
    /// rectangles lie in the bin and are mutually disjoint; the stored
    /// bounding box is exactly the tight bounding box of the placed
    /// rectangles.
    pub closed spec fn inv(&self) -> bool {
        let bin = self.bin@;
        let sp = self.spaces.spaces();
        let pl = self.placed@;
        &&& -COORD_LIMIT <= bin.w <= COORD_LIMIT
        &&& -COORD_LIMIT <= bin.h <= COORD_LIMIT
        &&& forall|i: int| 0 <= i < sp.len() ==> space_in_bin(#[trigger] sp[i], bin)
        &&& forall|i: int, j: int|
            0 <= i < sp.len() && 0 <= j < sp.len() && i != j ==> rect_disjoint(
                #[trigger] sp[i],
                #[trigger] sp[j],
            )
        &&& forall|i: int, j: int|
            0 <= i < sp.len() && 0 <= j < pl.len() ==> rect_disjoint(
                #[trigger] sp[i],
                #[trigger] pl[j],
            )
        &&& forall|j: int| 0 <= j < pl.len() ==> placed_in_bin(#[trigger] pl[j], bin)
        &&& forall|i: int, j: int|
            0 <= i < pl.len() && 0 <= j < pl.len() && i != j ==> rect_disjoint(
                #[trigger] pl[i],
                #[trigger] pl[j],
            )
        &&& self.current_aabb.w == aabb_w(pl)
        &&& self.current_aabb.h == aabb_h(pl)
    }

    /// A fresh tracker, reset to the bin `r`.
    pub fn new(r: RectWH) -> (s: Self)
        requires
            -COORD_LIMIT <= r.w <= COORD_LIMIT,
            -COORD_LIMIT <= r.h <= COORD_LIMIT,
        ensures
            s.inv(),
            s.bin() == r,
            s.placed() == Seq::<RectXYWH>::empty(),
            s.free_spaces().len() <= 1,
            s.free_spaces().len() == 1 ==> s.free_spaces()[0] == (RectXYWH {
                x: 0,
                y: 0,
                w: r.w,
                h: r.h,
            }),
            EmptySpacesProvider::unbounded() ==> s.free_spaces() == seq![
                RectXYWH { x: 0, y: 0, w: r.w, h: r.h },
            ],
    {
        let mut ret = Self {
            current_aabb: RectWH::new(0, 0),
            spaces: EmptySpacesProvider::empty(),
            placed: Ghost(Seq::empty()),
            bin: Ghost(r),
        };

        ret.reset(r);

        ret
    }

    /// Forget everything placed, and seed the store with one free rectangle
    /// covering the whole bin `r`.
    pub fn reset(&mut self, r: RectWH)
        requires
            -COORD_LIMIT <= r.w <= COORD_LIMIT,
            -COORD_LIMIT <= r.h <= COORD_LIMIT,
        ensures
            final(self).inv(),
            final(self).bin() == r,
            final(self).placed() == Seq::<RectXYWH>::empty(),
            final(self).free_spaces().len() <= 1,
            final(self).free_spaces().len() == 1 ==> final(self).free_spaces()[0] == (RectXYWH {
                x: 0,
                y: 0,
                w: r.w,
                h: r.h,
            }),
            EmptySpacesProvider::unbounded() ==> final(self).free_spaces() == seq![
                RectXYWH { x: 0, y: 0, w: r.w, h: r.h },
            ],
    {
        self.current_aabb = RectWH::new(0, 0);

        self.spaces.reset();
        let _seeded: bool = self.spaces.add(RectXYWH::new(0, 0, r.w, r.h));
        self.placed = Ghost(Seq::empty());
        self.bin = Ghost(r);
        proof {
            if self.spaces.spaces().len() == 1 {
                assert(self.spaces.spaces() =~= seq![RectXYWH { x: 0, y: 0, w: r.w, h: r.h }]);
            }
        }
    }

    /// Place one item, if any free rectangle can hold it.  Scans the free
    /// rectangles from most recently added to oldest, places the item in the
    /// corner of the first rectangle that fits, and splits that rectangle's
    /// leftover into new free rectangles.  On success the returned rectangle
    /// carries the item's size, lies within the bin, and overlaps no
    /// previously placed rectangle.
    #[verifier::loop_isolation(false)]
    pub fn insert(&mut self, image_rectangle: RectWH) -> (res: Option<RectXYWH>)
        requires
            old(self).inv(),
            size_within_limits(image_rectangle),
        ensures
            final(self).inv(),
            final(self).bin() == old(self).bin(),
            match res {
                Some(rect) => {
                    &&& final(self).placed() == old(self).placed().push(rect)
                    &&& rect.w == image_rectangle.w
                    &&& rect.h == image_rectangle.h
                    &&& rect_in_bin(rect, old(self).bin())
                    &&& forall|j: int|
                        0 <= j < old(self).placed().len() ==> rect_disjoint(
                            #[trigger] old(self).placed()[j],
                            rect,
                        )
                },
                None => final(self).placed() == old(self).placed(),
            },
            (forall|k: int|
                0 <= k < old(self).free_spaces().len() ==> !space_fits(
                    #[trigger] old(self).free_spaces()[k],
                    image_rectangle,
                )) ==> res is None && *final(self) == *old(self),
            res matches Some(rect) ==> exists|kk: int|
                {
                    &&& 0 <= kk < old(self).free_spaces().len()
                    &&& #[trigger] space_fits(old(self).free_spaces()[kk], image_rectangle)
                    &&& rect == placed_rect(image_rectangle, old(self).free_spaces()[kk])
                    &&& forall|k2: int|
                        kk < k2 < old(self).free_spaces().len() ==> !space_fits(
                            #[trigger] old(self).free_spaces()[k2],
                            image_rectangle,
                        )
                    &&& final(self).free_spaces() == old(self).free_spaces().update(
                        kk,
                        old(self).free_spaces().last(),
                    ).drop_last() + guillotine_pieces(
                        image_rectangle,
                        old(self).free_spaces()[kk],
                    )
                },
            EmptySpacesProvider::unbounded() && (exists|k: int|
                0 <= k < old(self).free_spaces().len() && space_fits(
                    #[trigger] old(self).free_spaces()[k],
                    image_rectangle,
                )) ==> res is Some,
    {
        let ghost orig = *self;
        let mut i: usize = self.spaces.get_count();

        while i > 0
            invariant
                *self == orig,
                orig.inv(),
                size_within_limits(image_rectangle),
                i <= self.spaces.spaces().len(),
                forall|k: int|
                    i <= k < self.spaces.spaces().len() ==> !space_fits(
                        #[trigger] self.spaces.spaces()[k],
                        image_rectangle,
                    ),
            decreases i,
        {
            i = i - 1;
            let candidate_space = self.spaces.get(i);
            let normal = Self::try_to_insert(image_rectangle, candidate_space);

            if normal.is_valid() {
                proof {
                    assert(space_fits(orig.free_spaces()[i as int], image_rectangle));
                }
                return self.accept_result(i, image_rectangle, candidate_space, &normal);
            }
        }

        None
    }

    /// Commit a successful fit: remove the chosen free rectangle, add the
    /// split leftovers (which may fail for a fixed-capacity store: the whole
    /// insertion then reports failure), grow the bounding box, and return the
    /// placed rectangle.
    fn accept_result(
        &mut self,
        i: usize,
        image_rectangle: RectWH,
        candidate_space: RectXYWH,
        splits: &CreatedSplits,
    ) -> (res: Option<RectXYWH>)
        requires
            old(self).inv(),
            size_within_limits(image_rectangle),
            i < old(self).free_spaces().len(),
            candidate_space == old(self).free_spaces()[i as int],
            image_rectangle.w <= candidate_space.w,
            image_rectangle.h <= candidate_space.h,
            0 <= splits.count <= 2,
            forall|k: int|
                0 <= k < splits.count ==> {
                    &&& (#[trigger] splits.spaces@[k]).w >= 0
                    &&& splits.spaces@[k].h >= 0
                    &&& rect_inside(splits.spaces@[k], candidate_space)
                    &&& rect_disjoint(
                        placed_rect(image_rectangle, candidate_space),
                        splits.spaces@[k],
                    )
                },
            splits.count == 2 ==> rect_disjoint(splits.spaces@[0], splits.spaces@[1]),
        ensures
            final(self).inv(),
            final(self).bin() == old(self).bin(),
            match res {
                Some(rect) => {
                    &&& final(self).placed() == old(self).placed().push(rect)
                    &&& rect == placed_rect(image_rectangle, candidate_space)
                    &&& rect_in_bin(rect, old(self).bin())
                    &&& forall|j: int|
                        0 <= j < old(self).placed().len() ==> rect_disjoint(
                            #[trigger] old(self).placed()[j],
                            rect,
                        )
                },
                None => final(self).placed() == old(self).placed(),
            },
            splits.count == 0 ==> res is Some,
            res is None ==> splits.count >= 1,
            EmptySpacesProvider::unbounded() ==> res is Some,
            res is Some ==> final(self).free_spaces() == old(self).free_spaces().update(
                i as int,
                old(self).free_spaces().last(),
            ).drop_last() + splits.spaces@.subrange(0, splits.count as int),
    {
        let ghost bin = self.bin@;
        let ghost old_sp = self.spaces.spaces();
        let ghost pl = self.placed@;
        let ghost fp = placed_rect(image_rectangle, candidate_space);

        proof {
            lemma_remove_keeps_space_facts(old_sp, i as int, pl, bin);
        }
        self.spaces.remove(i);

        let ghost sp0 = self.spaces.spaces();
        proof {
            // Every split piece lies in the bin and is disjoint from the
            // remaining free rectangles and from everything placed.
            assert forall|k: int, m: int|
                0 <= k < splits.count && 0 <= m < sp0.len() implies rect_disjoint(
                #[trigger] splits.spaces@[k],
                #[trigger] sp0[m],
            ) by {
                lemma_inside_preserves_disjoint(splits.spaces@[k], candidate_space, sp0[m]);
            }
            assert forall|k: int, j: int|
                0 <= k < splits.count && 0 <= j < pl.len() implies rect_disjoint(
                #[trigger] splits.spaces@[k],
                #[trigger] pl[j],
            ) by {
                assert(rect_disjoint(old_sp[i as int], pl[j]));
                lemma_inside_preserves_disjoint(splits.spaces@[k], candidate_space, pl[j]);
            }
            assert forall|k: int| 0 <= k < splits.count implies space_in_bin(
                #[trigger] splits.spaces@[k],
                bin,
            ) by {
                assert(space_in_bin(old_sp[i as int], bin));
            }
        }

        if splits.count >= 1 {
            if !self.spaces.add(splits.spaces[0]) {
                return None;
            }
        }
        if splits.count >= 2 {
            if !self.spaces.add(splits.spaces[1]) {
                return None;
            }
        }

        let result = RectXYWH::new(
            candidate_space.x,
            candidate_space.y,
            image_rectangle.w,
            image_rectangle.h,
        );

        proof {
            assert(self.spaces.spaces() =~= sp0 + splits.spaces@.subrange(
                0,
                splits.count as int,
            ));
            assert(result == fp);
            assert(rect_inside(result, candidate_space));
            assert forall|k: int| 0 <= k < self.spaces.spaces().len() implies rect_disjoint(
                #[trigger] self.spaces.spaces()[k],
                result,
            ) by {
                if k < sp0.len() {
                    assert(self.spaces.spaces()[k] == sp0[k]);
                    lemma_inside_preserves_disjoint(result, candidate_space, sp0[k]);
                } else {
                    assert(rect_disjoint(fp, self.spaces.spaces()[k]));
                }
            }
            assert forall|j: int| 0 <= j < pl.len() implies rect_disjoint(
                #[trigger] pl[j],
                result,
            ) by {
                assert(rect_disjoint(old_sp[i as int], pl[j]));
                lemma_inside_preserves_disjoint(result, candidate_space, pl[j]);
            }
            assert(pl.push(result).drop_last() == pl);
        }

        self.current_aabb.expand_with(result);
        self.placed = Ghost(self.placed@.push(result));

        Some(result)
    }

    fn try_to_insert(img: RectWH, candidate_space: RectXYWH) -> (r: CreatedSplits)
        requires
            size_within_limits(img),
            space_within_limits(candidate_space),
        ensures
            (r.count == -1) <==> (candidate_space.w - img.w < 0 || candidate_space.h - img.h < 0),
            -1 <= r.count <= 2,
            r.count >= 0 ==> r.spaces@.subrange(0, r.count as int) == guillotine_pieces(
                img,
                candidate_space,
            ),
            forall|k: int|
                0 <= k < r.count ==> {
                    &&& (#[trigger] r.spaces@[k]).w >= 0
                    &&& r.spaces@[k].h >= 0
                    &&& rect_inside(r.spaces@[k], candidate_space)
                    &&& rect_disjoint(placed_rect(img, candidate_space), r.spaces@[k])
                },
            r.count == 2 ==> rect_disjoint(r.spaces@[0], r.spaces@[1]),
    {
        insert_and_split(img, candidate_space)
    }

    /// The tight bounding box of everything placed since the last reset.
    pub fn get_rects_aabb(&self) -> (r: RectWH)
        requires
            self.inv(),
        ensures
            r.w == aabb_w(self.placed()),
            r.h == aabb_h(self.placed()),
    {
        self.current_aabb
    }

    /// Read access to the underlying free-space store.
    pub fn get_spaces(&self) -> (r: &EmptySpacesProvider)
        ensures
            r.spaces() == self.free_spaces(),
    {
        &self.spaces
    }
}

impl<EmptySpacesProvider: EmptySpacesProviderTrait> Default for EmptySpaces<EmptySpacesProvider> {
    /// A tracker reset to an empty bin; callers reset it to a real bin
    /// before use, or let a packing run do so.
    fn default() -> (s: Self)
        ensures
            s.inv(),
            s.placed() == Seq::<RectXYWH>::empty(),
    {
        Self::new(RectWH::new(0, 0))
    }
}

/// After swap-removing index `i`, every remaining free rectangle is one of
/// the old ones (other than a removed occurrence), so the store's geometric
/// facts carry over.
proof fn lemma_remove_keeps_space_facts(old_sp: Seq<RectXYWH>, i: int, pl: Seq<RectXYWH>, bin: RectWH)
    requires
        0 <= i < old_sp.len(),
        forall|k: int| 0 <= k < old_sp.len() ==> space_in_bin(#[trigger] old_sp[k], bin),
        forall|k1: int, k2: int|
            0 <= k1 < old_sp.len() && 0 <= k2 < old_sp.len() && k1 != k2 ==> rect_disjoint(
                #[trigger] old_sp[k1],
                #[trigger] old_sp[k2],
            ),
        forall|k: int, j: int|
            0 <= k < old_sp.len() && 0 <= j < pl.len() ==> rect_disjoint(
                #[trigger] old_sp[k],
                #[trigger] pl[j],
            ),
    ensures
        ({
            let sp = old_sp.update(i, old_sp.last()).drop_last();
            &&& forall|k: int| 0 <= k < sp.len() ==> space_in_bin(#[trigger] sp[k], bin)
            &&& forall|k1: int, k2: int|
                0 <= k1 < sp.len() && 0 <= k2 < sp.len() && k1 != k2 ==> rect_disjoint(
                    #[trigger] sp[k1],
                    #[trigger] sp[k2],
                )
            &&& forall|k: int, j: int|
                0 <= k < sp.len() && 0 <= j < pl.len() ==> rect_disjoint(
                    #[trigger] sp[k],
                    #[trigger] pl[j],
                )
            &&& forall|k: int| 0 <= k < sp.len() ==> rect_disjoint(#[trigger] sp[k], old_sp[i])
        }),
{
    let sp = old_sp.update(i, old_sp.last()).drop_last();
    let n = old_sp.len();
    assert forall|k: int| 0 <= k < sp.len() implies (#[trigger] sp[k] == if k == i {
        old_sp[n - 1]
    } else {
        old_sp[k]
    }) by {}
}

/// Every free rectangle a tracker holds lies within its bin.
pub proof fn lemma_free_space_in_bin<P: EmptySpacesProviderTrait>(es: &EmptySpaces<P>, k: int)
    requires
        es.inv(),
        0 <= k < es.free_spaces().len(),
    ensures
        space_in_bin(es.free_spaces()[k], es.bin()),
{
}

/// No two free rectangles a tracker holds share an interior point.
pub proof fn lemma_free_spaces_no_overlap<P: EmptySpacesProviderTrait>(
    es: &EmptySpaces<P>,
    k1: int,
    k2: int,
)
    requires
        es.inv(),
        0 <= k1 < es.free_spaces().len(),
        0 <= k2 < es.free_spaces().len(),
        k1 != k2,
    ensures
        rect_disjoint(es.free_spaces()[k1], es.free_spaces()[k2]),
{
}

/// No free rectangle a tracker holds overlaps any placed rectangle.
pub proof fn lemma_free_space_clear_of_placed<P: EmptySpacesProviderTrait>(
    es: &EmptySpaces<P>,
    k: int,
    j: int,
)
    requires
        es.inv(),
        0 <= k < es.free_spaces().len(),
        0 <= j < es.placed().len(),
    ensures
        rect_disjoint(es.free_spaces()[k], es.placed()[j]),
{
}

/// A rectangle inside `outer` is disjoint from anything `outer` is disjoint
/// from.
pub proof fn lemma_inside_preserves_disjoint(inner: RectXYWH, outer: RectXYWH, other: RectXYWH)
    requires
        rect_inside(inner, outer),
        rect_disjoint(outer, other),
    ensures
        rect_disjoint(inner, other),
{
}

/// No overlap: any two distinct rectangles placed by one tracker since its
/// last reset share no interior point.
pub proof fn lemma_placed_no_overlap<P: EmptySpacesProviderTrait>(
    es: &EmptySpaces<P>,
    i: int,
    j: int,
)
    requires
        es.inv(),
        0 <= i < es.placed().len(),
        0 <= j < es.placed().len(),
        i != j,
    ensures
        rect_disjoint(es.placed()[i], es.placed()[j]),
{
}

/// Containment: every rectangle placed by a tracker lies within
/// `[0, bin.w) x [0, bin.h)` for the bin it was reset to.
pub proof fn lemma_placed_in_bin<P: EmptySpacesProviderTrait>(es: &EmptySpaces<P>, i: int)
    requires
        es.inv(),
        0 <= i < es.placed().len(),
    ensures
        rect_in_bin(es.placed()[i], es.bin()),
        es.placed()[i].w >= 0,
        es.placed()[i].h >= 0,
{
}

} // verus!
