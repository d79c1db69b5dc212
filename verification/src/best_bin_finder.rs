//! The best-bin search: for one fixed insertion order, a shrink/grow descent
//! over candidate bin sizes that finds a small fitting bin, or reports the
//! best partial area when nothing fits within the starting bin.

use vstd::prelude::*;

verus! {

use vstd::math::{abs, max};
use vstd::pervasive::VecAdditionalExecFns;
use crate::empty_spaces::{
    EmptySpaces,
    EmptySpacesProviderTrait,
    lemma_placed_in_bin,
    lemma_placed_no_overlap,
    placed_in_bin,
    space_fits,
};
use crate::finders_interface::Input;
use crate::rect_structs::{
    COORD_LIMIT,
    aabb_h,
    aabb_w,
    placement_map_ok,
    DISCARD_LIMIT,
    MAX_BIN_SIDE_LIMIT,
    RectWH,
    RectXYWH,
    SEARCH_LIMIT,
    TotalAreaType,
    lemma_aabb_covers,
    packing_outcome,
    rect_disjoint,
    valid_subjects,
};

/// What a packing callback tells the final pass to do next.
pub enum CallbackResult {
    AbortPacking,
    ContinuePacking,
}

/// Which bin dimension(s) a search pass is allowed to move.
#[derive(Clone, Copy)]
pub(crate) enum BinDimension {
    Both,
    Width,
    Height,
}

/// Result of a best-bin search: either a fitting bin size, or the total
/// area that could be placed when no candidate within bounds fit.
pub(crate) enum BestPackingReturn {
    TotalArea(TotalAreaType),
    Rect(RectWH),
}

/// `pl` places the order `o` into `bin`: one rectangle per order entry,
/// carrying that subject's size, inside the bin, mutually disjoint.
pub open spec fn is_fit_witness(
    pl: Seq<RectXYWH>,
    s: Seq<RectXYWH>,
    o: Seq<usize>,
    bin: RectWH,
) -> bool {
    &&& pl.len() == o.len()
    &&& forall|j: int|
        0 <= j < pl.len() ==> crate::empty_spaces::placed_in_bin(#[trigger] pl[j], bin)
            && pl[j].w == s[o[j] as int].w && pl[j].h == s[o[j] as int].h
    &&& forall|j1: int, j2: int|
        0 <= j1 < j2 < pl.len() ==> rect_disjoint(#[trigger] pl[j1], #[trigger] pl[j2])
}

/// The whole order can be placed into `bin` without overlap.
pub open spec fn order_fits_in(s: Seq<RectXYWH>, o: Seq<usize>, bin: RectWH) -> bool {
    exists|pl: Seq<RectXYWH>| is_fit_witness(pl, s, o, bin)
}

/// Every order entry is in range and names a rectangle with positive sides.
pub open spec fn order_elems_ok(o: Seq<usize>, s: Seq<RectXYWH>) -> bool {
    forall|j: int|
        0 <= j < o.len() ==> (#[trigger] o[j]) < s.len() && s[o[j] as int].w > 0 && s[o[j] as int].h
            > 0
}

/// An insertion order: distinct indices into the subject list, every one in
/// range and naming a rectangle with positive sides.
pub open spec fn valid_order(o: Seq<usize>, s: Seq<RectXYWH>) -> bool {
    order_elems_ok(o, s) && o.no_duplicates()
}

/// Every positive-area subject appears in every order.
pub open spec fn orders_complete(orders: Seq<Vec<usize>>, s: Seq<RectXYWH>) -> bool {
    forall|k: int, i: int|
        #![trigger orders[k]@.contains(i as usize)]
        0 <= k < orders.len() && 0 <= i < s.len() && s[i].w > 0 && s[i].h > 0
            ==> orders[k]@.contains(i as usize)
}

/// Sum of the areas of the first `n` rectangles an order names.
pub open spec fn order_area_prefix(s: Seq<RectXYWH>, o: Seq<usize>, n: int) -> int
    decreases n,
{
    if n <= 0 {
        0
    } else {
        order_area_prefix(s, o, n - 1) + s[o[n - 1] as int].w * s[o[n - 1] as int].h
    }
}

/// Sum of the areas of all rectangles an order names.
pub open spec fn order_area_sum(s: Seq<RectXYWH>, o: Seq<usize>) -> int {
    order_area_prefix(s, o, o.len() as int)
}

/// Prefix area sums of a valid order are non-negative.
proof fn lemma_order_prefix_nonneg(s: Seq<RectXYWH>, o: Seq<usize>, n: int)
    requires
        valid_order(o, s),
        n <= o.len(),
    ensures
        0 <= order_area_prefix(s, o, n),
    decreases n,
{
    if n > 0 {
        lemma_order_prefix_nonneg(s, o, n - 1);
        let r = s[o[n - 1] as int];
        assert(r.w * r.h > 0) by (nonlinear_arith)
            requires
                r.w > 0,
                r.h > 0,
        ;
    }
}

/// Prefix area sums of a valid order never exceed the order's full sum.
proof fn lemma_order_prefix_mono(s: Seq<RectXYWH>, o: Seq<usize>, n: int)
    requires
        valid_order(o, s),
        0 <= n <= o.len(),
    ensures
        order_area_prefix(s, o, n) <= order_area_sum(s, o),
    decreases o.len() - n,
{
    if n < o.len() {
        let r = s[o[n] as int];
        assert(r.w * r.h > 0) by (nonlinear_arith)
            requires
                r.w > 0,
                r.h > 0,
        ;
        lemma_order_prefix_mono(s, o, n + 1);
    }
}

/// Truncating halving, as `/ 2` computes it on machine integers.
pub open spec fn half_spec(x: int) -> int {
    if x >= 0 {
        x / 2
    } else {
        -((-x) / 2)
    }
}

/// Halve an `i32`, rounding toward zero.
fn half_i32(x: i32) -> (r: i32)
    ensures
        r as int == half_spec(x as int),
{
    match x.checked_div(2) {
        Some(v) => v,
        None => {
            proof {
                assert(false);
            }
            0
        },
    }
}

fn max_i32(a: i32, b: i32) -> (r: i32)
    ensures
        r as int == max(a as int, b as int),
{
    if a >= b {
        a
    } else {
        b
    }
}

/// The area of a bin, computed without overflow.
fn area_i64(r: RectWH) -> (a: i64)
    ensures
        a as int == r.w * r.h,
{
    let w64: i64 = r.w as i64;
    let h64: i64 = r.h as i64;
    proof {
        assert(i64::MIN <= w64 * h64 <= i64::MAX) by (nonlinear_arith)
            requires
                -0x8000_0000 <= w64 <= 0x7fff_ffff,
                -0x8000_0000 <= h64 <= 0x7fff_ffff,
        ;
    }
    w64 * h64
}

/// Bounds of truncating halving: the result keeps the sign and at most half
/// the magnitude.
proof fn lemma_half_bounds(x: int)
    ensures
        2 * abs(half_spec(x)) <= abs(x),
        x >= 0 ==> half_spec(x) >= 0,
        x < 0 ==> half_spec(x) <= 0,
{
    if x >= 0 {
        assert(2 * (x / 2) <= x && x / 2 >= 0) by (nonlinear_arith)
            requires
                x >= 0,
        ;
    } else {
        assert(2 * ((-x) / 2) <= -x && (-x) / 2 >= 0) by (nonlinear_arith)
            requires
                -x > 0,
        ;
    }
}

/// Rank of a step size under repeated halving-to-one: strictly drops when a
/// step of two or more halves, and when a non-positive step is replaced by
/// one.
spec fn step_rank(step: int) -> nat
    decreases max(step, 0),
{
    if step <= 0 {
        2
    } else if step == 1 {
        1
    } else {
        step_rank(step / 2) + 1
    }
}

/// Upper bound on how much total shrinking the search can still do from a
/// state with this step and this many tries left.
spec fn search_budget(step: int, tries: int) -> int {
    2 * max(step, 1) + tries + (if step < 0 { -step } else { 0 })
}

/// How the shrink budget moves when the step halves (floor, minimum one) at
/// the end of a search round.
proof fn lemma_budget_step(s: int, t: int, t2: int)
    requires
        0 <= t2 <= t,
    ensures
        search_budget(max(1, half_spec(s)), t2) <= search_budget(s, t),
        s < 0 ==> search_budget(max(1, half_spec(s)), t2) <= search_budget(s, t) + s,
        s != 1 || t2 < t ==> search_budget(max(1, half_spec(s)), t2) + s <= search_budget(s, t),
{
    lemma_half_bounds(s);
    if s >= 2 {
        assert(half_spec(s) == s / 2);
        assert(1 <= s / 2) by (nonlinear_arith)
            requires
                s >= 2,
        ;
        assert(2 * (s / 2) <= s) by (nonlinear_arith)
            requires
                s >= 2,
        ;
    }
}

/// Multiplication is monotone on non-negative factors.
proof fn lemma_mul_le(a: int, b: int, c: int, d: int)
    requires
        0 <= a <= c,
        0 <= b <= d,
    ensures
        a * b <= c * d,
{
    assert(a * b <= c * d) by (nonlinear_arith)
        requires
            0 <= a <= c,
            0 <= b <= d,
    ;
}

/// A shrunk candidate of the both-dimensions search keeps its area within
/// the starting bin's, as long as it stays non-negative: it shrank either
/// from the freshly halved bin or from a candidate already within the area.
proof fn lemma_both_shrink_area(
    w2: int,
    h2: int,
    wp: int,
    hp: int,
    w0: int,
    h0: int,
    sw: int,
    sh: int,
)
    requires
        sw >= 0,
        sh >= 0,
        0 <= w2 <= wp,
        0 <= h2 <= hp,
        w0 == half_spec(sw),
        h0 == half_spec(sh),
        (wp == w0 && hp == h0) || wp * hp <= sw * sh,
    ensures
        w2 * h2 <= sw * sh,
{
    lemma_half_bounds(sw);
    lemma_half_bounds(sh);
    if wp == w0 && hp == h0 {
        lemma_mul_le(w2, h2, sw, sh);
    } else {
        lemma_mul_le(w2, h2, wp, hp);
    }
}

/// In the both-dimensions search, a candidate too wide (or too tall) must
/// exceed the starting area, because width and height move together.
proof fn lemma_both_grow_bound(w2: int, h2: int, sw: int, sh: int)
    requires
        2 * (w2 - h2) <= abs(sw) + abs(sh),
        -(abs(sw) + abs(sh)) <= 2 * (w2 - h2),
        w2 * h2 <= sw * sh,
    ensures
        w2 <= abs(sw) + abs(sh) + 2,
        h2 <= abs(sw) + abs(sh) + 2,
{
    let a = abs(sw) + abs(sh);
    assert(4 * (sw * sh) <= a * a) by (nonlinear_arith)
        requires
            a == abs(sw) + abs(sh),
    ;
    if w2 > a + 2 {
        assert(2 * h2 >= 2 * w2 - a);
        assert(4 * (w2 * h2) > a * a) by (nonlinear_arith)
            requires
                w2 > a + 2,
                2 * h2 >= 2 * w2 - a,
                a >= 0,
        ;
        assert(false);
    }
    if h2 > a + 2 {
        assert(2 * w2 >= 2 * h2 - a);
        assert(4 * (w2 * h2) > a * a) by (nonlinear_arith)
            requires
                h2 > a + 2,
                2 * w2 >= 2 * h2 - a,
                a >= 0,
        ;
        assert(false);
    }
}

/// Try to place every rectangle of the order, in order, into the tracker's
/// current bin.  Reports whether all fit, and accumulates the area placed.
#[verifier::loop_isolation(false)]
fn all_inserted<P: EmptySpacesProviderTrait>(
    ordering: &Vec<usize>,
    subjects: &Vec<RectXYWH>,
    root: &mut EmptySpaces<P>,
    total_inserted_area: &mut i32,
) -> (b: bool)
    requires
        old(root).inv(),
        valid_subjects(subjects@),
        valid_order(ordering@, subjects@),
        order_area_sum(subjects@, ordering@) <= i32::MAX,
        *old(total_inserted_area) == 0,
    ensures
        final(root).inv(),
        final(root).bin() == old(root).bin(),
        old(root).placed().len() <= final(root).placed().len() <= old(root).placed().len()
            + ordering@.len(),
        b == (final(root).placed().len() == old(root).placed().len() + ordering@.len()),
        *final(total_inserted_area) == order_area_prefix(
            subjects@,
            ordering@,
            final(root).placed().len() - old(root).placed().len(),
        ),
        0 <= *final(total_inserted_area) <= order_area_sum(subjects@, ordering@),
        forall|j: int|
            0 <= j < final(root).placed().len() - old(root).placed().len() ==> (
            #[trigger] final(root).placed()[old(root).placed().len() + j]).w
                == subjects@[ordering@[j] as int].w && final(root).placed()[old(
                root,
            ).placed().len() + j].h == subjects@[ordering@[j] as int].h,
{
    let ghost base = old(root).placed().len() as int;
    let mut j: usize = 0;

    proof {
        lemma_order_prefix_nonneg(subjects@, ordering@, ordering@.len() as int);
    }

    while j < ordering.len()
        invariant
            root.inv(),
            root.bin() == old(root).bin(),
            j <= ordering@.len(),
            root.placed().len() == base + j,
            *total_inserted_area as int == order_area_prefix(subjects@, ordering@, j as int),
            0 <= *total_inserted_area,
            forall|k: int|
                0 <= k < j ==> (#[trigger] root.placed()[base + k]).w == subjects@[ordering@[k] as int].w
                    && root.placed()[base + k].h == subjects@[ordering@[k] as int].h,
        decreases ordering@.len() - j,
    {
        let idx: usize = ordering[j];
        let rect = subjects[idx];

        proof {
            lemma_order_prefix_nonneg(subjects@, ordering@, j as int);
            lemma_order_prefix_mono(subjects@, ordering@, j + 1);
        }

        if root.insert(RectWH::from_xywh(rect)).is_some() {
            *total_inserted_area = *total_inserted_area + rect.area();
        } else {
            proof {
                lemma_order_prefix_mono(subjects@, ordering@, j as int);
            }
            return false;
        }

        j = j + 1;
    }

    true
}

/// One shrink/grow descent over candidate bins for one insertion order.
///
/// Starting from half the given bin, each round resets the tracker and tries
/// to insert the whole order.  Fits shrink the candidate, failures grow it;
/// the step halves every round (floor, minimum one).  A fit reached when the
/// step is within the discard granularity (and the retry budget is spent) is
/// returned as the answer; growth beyond the starting bin aborts with the
/// total area placed in that failed attempt.  The loop's `decreases` clause
/// proves the search always terminates.
#[verifier::rlimit(100)]
#[verifier::spinoff_prover]
pub(crate) fn best_packing_for_ordering_impl<P: EmptySpacesProviderTrait>(
    root: &mut EmptySpaces<P>,
    ordering: &Vec<usize>,
    subjects: &Vec<RectXYWH>,
    starting_bin: RectWH,
    discard_step: i32,
    tried_dimension: BinDimension,
) -> (r: BestPackingReturn)
    requires
        old(root).inv(),
        valid_subjects(subjects@),
        valid_order(ordering@, subjects@),
        order_area_sum(subjects@, ordering@) <= i32::MAX,
        -SEARCH_LIMIT <= starting_bin.w <= SEARCH_LIMIT,
        -SEARCH_LIMIT <= starting_bin.h <= SEARCH_LIMIT,
        -DISCARD_LIMIT <= discard_step <= DISCARD_LIMIT,
    ensures
        final(root).inv(),
        match r {
            BestPackingReturn::Rect(rect) => {
                &&& rect.w <= abs(starting_bin.w as int) + abs(starting_bin.h as int) + 2
                &&& rect.h <= abs(starting_bin.w as int) + abs(starting_bin.h as int) + 2
                &&& rect.w >= -(2 * (abs(starting_bin.w as int) + abs(starting_bin.h as int))
                    + abs(discard_step as int) + 8)
                &&& rect.h >= -(2 * (abs(starting_bin.w as int) + abs(starting_bin.h as int))
                    + abs(discard_step as int) + 8)
                &&& final(root).bin() == rect
                &&& final(root).placed().len() == ordering@.len()
                &&& forall|j: int|
                    0 <= j < ordering@.len() ==> (#[trigger] final(root).placed()[j]).w
                        == subjects@[ordering@[j] as int].w && final(root).placed()[j].h
                        == subjects@[ordering@[j] as int].h
                &&& order_fits_in(subjects@, ordering@, rect)
                &&& tried_dimension is Both ==> rect.w - rect.h == half_spec(
                    starting_bin.w as int,
                ) - half_spec(starting_bin.h as int)
                &&& tried_dimension is Both && starting_bin.w >= 0 && starting_bin.h >= 0 && rect.w
                    >= 0 && rect.h >= 0 ==> rect.w * rect.h <= starting_bin.w * starting_bin.h
                &&& tried_dimension is Width ==> rect.w <= max(starting_bin.w as int, 0) && rect.h
                    == starting_bin.h
                &&& tried_dimension is Height ==> rect.h <= max(starting_bin.h as int, 0) && rect.w
                    == starting_bin.w
            },
            BestPackingReturn::TotalArea(a) => {
                &&& 0 <= a <= order_area_sum(subjects@, ordering@)
                &&& exists|n: int|
                    0 <= n <= ordering@.len() && a == #[trigger] order_area_prefix(
                        subjects@,
                        ordering@,
                        n,
                    )
            },
        },
        ordering@.len() == 0 ==> r is Rect,
{
    let mut candidate_bin: RectWH = starting_bin;
    let mut tries_before_discarding: i32 = 0;
    let mut discard: i32 = discard_step;

    if discard <= 0 {
        tries_before_discarding = -discard;
        discard = 1;
    }

    let starting_step: i32 = match tried_dimension {
        BinDimension::Both => {
            candidate_bin.w = half_i32(candidate_bin.w);
            candidate_bin.h = half_i32(candidate_bin.h);

            half_i32(candidate_bin.w)
        },
        BinDimension::Width => {
            candidate_bin.w = half_i32(candidate_bin.w);

            half_i32(candidate_bin.w)
        },
        BinDimension::Height => {
            candidate_bin.h = half_i32(candidate_bin.h);

            half_i32(candidate_bin.h)
        },
    };

    let mut step: i32 = starting_step;

    let ghost sw = starting_bin.w as int;
    let ghost sh = starting_bin.h as int;
    let ghost up = abs(sw) + abs(sh) + 2;
    let ghost low = -(2 * (abs(sw) + abs(sh)) + abs(discard_step as int) + 8);
    let ghost w0 = candidate_bin.w as int;
    let ghost h0 = candidate_bin.h as int;
    let ghost s0 = starting_step as int;
    let ghost t0 = tries_before_discarding as int;
    let ghost b0 = search_budget(s0, t0);

    proof {
        lemma_half_bounds(sw);
        lemma_half_bounds(sh);
        lemma_half_bounds(w0);
        lemma_half_bounds(h0);
        assert(t0 <= abs(discard_step as int));
        assert(abs(s0) <= abs(sw) + abs(sh));
        assert(b0 <= 3 * abs(s0) + 2 + t0);
        assert(w0 - b0 >= low);
        assert(h0 - b0 >= low);
    }

    loop
        invariant
            valid_order(ordering@, subjects@),
            order_area_sum(subjects@, ordering@) <= i32::MAX,
            sw == starting_bin.w as int,
            sh == starting_bin.h as int,
            -SEARCH_LIMIT <= starting_bin.w <= SEARCH_LIMIT,
            -SEARCH_LIMIT <= starting_bin.h <= SEARCH_LIMIT,
            -DISCARD_LIMIT <= discard_step <= DISCARD_LIMIT,
            up == abs(sw) + abs(sh) + 2,
            low == -(2 * (abs(sw) + abs(sh)) + abs(discard_step as int) + 8),
            b0 == search_budget(s0, t0),
            w0 - b0 >= low,
            h0 - b0 >= low,
            -SEARCH_LIMIT <= s0 <= SEARCH_LIMIT,
            0 <= t0 <= DISCARD_LIMIT,
            low >= -(5 * SEARCH_LIMIT),
            up <= 2 * SEARCH_LIMIT + 2,
            root.inv(),
            valid_subjects(subjects@),
            1 <= discard <= DISCARD_LIMIT,
            0 <= tries_before_discarding,
            tries_before_discarding as int <= t0,
            -SEARCH_LIMIT <= step <= SEARCH_LIMIT,
            step as int >= 1 || (step as int == s0 && candidate_bin.w as int == w0
                && candidate_bin.h as int == h0 && tries_before_discarding as int == t0),
            candidate_bin.w as int <= up,
            candidate_bin.h as int <= up,
            candidate_bin.w as int >= w0 - b0 + search_budget(
                step as int,
                tries_before_discarding as int,
            ),
            candidate_bin.h as int >= h0 - b0 + search_budget(
                step as int,
                tries_before_discarding as int,
            ),
            tried_dimension is Both ==> candidate_bin.w as int - candidate_bin.h as int == w0 - h0,
            tried_dimension is Width ==> candidate_bin.h == starting_bin.h,
            tried_dimension is Height ==> candidate_bin.w == starting_bin.w,
            tried_dimension is Both ==> 2 * abs(w0) <= abs(sw) && 2 * abs(h0) <= abs(sh) && 2 * abs(
                s0,
            ) <= abs(w0),
            tried_dimension is Width ==> 2 * abs(w0) <= abs(sw) && h0 == sh && 2 * abs(s0) <= abs(
                w0,
            ),
            tried_dimension is Height ==> w0 == sw && 2 * abs(h0) <= abs(sh) && 2 * abs(s0) <= abs(
                h0,
            ),
            tried_dimension is Both ==> w0 == half_spec(sw) && h0 == half_spec(sh) && s0
                == half_spec(w0),
            tried_dimension is Width ==> w0 == half_spec(sw) && s0 == half_spec(w0),
            tried_dimension is Height ==> h0 == half_spec(sh) && s0 == half_spec(h0),
            tried_dimension is Width ==> candidate_bin.w as int <= max(sw, 0),
            tried_dimension is Height ==> candidate_bin.h as int <= max(sh, 0),
            tried_dimension is Both && sw >= 0 && sh >= 0 && candidate_bin.w >= 0
                && candidate_bin.h >= 0 ==> ((step as int == s0 && candidate_bin.w as int == w0
                && candidate_bin.h as int == h0) || candidate_bin.w * candidate_bin.h <= sw * sh),
        decreases
            step_rank(step as int),
            tries_before_discarding as int,
            max(0, up + 1 - candidate_bin.w as int) + max(0, up + 1 - candidate_bin.h as int),
    {
        let ghost s_head = step as int;
        let ghost t_head = tries_before_discarding as int;
        let ghost w_head = candidate_bin.w as int;
        let ghost h_head = candidate_bin.h as int;

        proof {
            assert(search_budget(step as int, tries_before_discarding as int) >= 0);
            assert(candidate_bin.w as int >= low);
            assert(candidate_bin.h as int >= low);
        }
        root.reset(candidate_bin);
        let mut total_inserted_area: i32 = 0;

        if all_inserted(ordering, subjects, root, &mut total_inserted_area) {
            if step <= discard {
                if tries_before_discarding > 0 {
                    tries_before_discarding = tries_before_discarding - 1;
                } else {
                    proof {
                        assert(search_budget(step as int, tries_before_discarding as int) >= 0);
                        assert(candidate_bin.w as int >= low);
                        assert(candidate_bin.h as int >= low);
                        assert(root.placed().len() == ordering@.len());
                        assert forall|j: int| 0 <= j < ordering@.len() implies (
                        #[trigger] root.placed()[j]).w == subjects@[ordering@[j] as int].w
                            && root.placed()[j].h == subjects@[ordering@[j] as int].h by {
                            assert(root.placed()[0 + j].w == subjects@[ordering@[j] as int].w);
                            assert(root.placed()[0 + j].h == subjects@[ordering@[j] as int].h);
                        }
                        // The tracker's own placement witnesses that the
                        // whole order fits in this candidate bin.
                        assert forall|j: int|
                            0 <= j < root.placed().len() implies crate::empty_spaces::placed_in_bin(
                            #[trigger] root.placed()[j],
                            candidate_bin,
                        ) by {
                            crate::empty_spaces::lemma_placed_in_bin(root, j);
                        }
                        assert forall|j1: int, j2: int|
                            0 <= j1 < j2 < root.placed().len() implies rect_disjoint(
                            #[trigger] root.placed()[j1],
                            #[trigger] root.placed()[j2],
                        ) by {
                            lemma_placed_no_overlap(root, j1, j2);
                        }
                        assert(is_fit_witness(root.placed(), subjects@, ordering@, candidate_bin));
                        if tried_dimension is Both && sw >= 0 && sh >= 0 && candidate_bin.w >= 0
                            && candidate_bin.h >= 0 {
                            lemma_half_bounds(sw);
                            lemma_half_bounds(sh);
                            if candidate_bin.w as int == w0 && candidate_bin.h as int == h0 {
                                lemma_mul_le(w0, h0, sw, sh);
                            }
                        }
                    }
                    return BestPackingReturn::Rect(candidate_bin);
                }
            }

            match tried_dimension {
                BinDimension::Both => {
                    candidate_bin.w = candidate_bin.w - step;
                    candidate_bin.h = candidate_bin.h - step;
                },
                BinDimension::Width => {
                    candidate_bin.w = candidate_bin.w - step;
                },
                BinDimension::Height => {
                    candidate_bin.h = candidate_bin.h - step;
                },
            }
            proof {
                lemma_budget_step(s_head, t_head, tries_before_discarding as int);
                if s_head < 1 {
                    assert(step as int == s0 && w_head == w0 && h_head == h0);
                    lemma_half_bounds(sw);
                    lemma_half_bounds(sh);
                    lemma_half_bounds(w0);
                    lemma_half_bounds(h0);
                    assert(candidate_bin.w as int <= up);
                    assert(candidate_bin.h as int <= up);
                }
                if tried_dimension is Both && sw >= 0 && sh >= 0 && candidate_bin.w >= 0
                    && candidate_bin.h >= 0 {
                    // A negative step occurs only in the first round, and a
                    // non-negative starting bin gives a non-negative step.
                    if s_head < 1 {
                        lemma_half_bounds(sw);
                        lemma_half_bounds(w0);
                    }
                    assert(s_head >= 0);
                    lemma_both_shrink_area(
                        candidate_bin.w as int,
                        candidate_bin.h as int,
                        w_head,
                        h_head,
                        w0,
                        h0,
                        sw,
                        sh,
                    );
                }
            }
        } else {
            proof {
                assert(total_inserted_area as int == order_area_prefix(
                    subjects@,
                    ordering@,
                    root.placed().len() as int,
                ));
                assert(root.placed().len() <= ordering@.len());
            }
            match tried_dimension {
                BinDimension::Both => {
                    candidate_bin.w = candidate_bin.w + step;
                    candidate_bin.h = candidate_bin.h + step;

                    if area_i64(candidate_bin) > area_i64(starting_bin) {
                        return BestPackingReturn::TotalArea(total_inserted_area);
                    }
                    proof {
                        lemma_both_grow_bound(candidate_bin.w as int, candidate_bin.h as int, sw, sh);
                    }
                },
                BinDimension::Width => {
                    candidate_bin.w = candidate_bin.w + step;

                    if candidate_bin.w > starting_bin.w {
                        return BestPackingReturn::TotalArea(total_inserted_area);
                    }
                },
                BinDimension::Height => {
                    candidate_bin.h = candidate_bin.h + step;

                    if candidate_bin.h > starting_bin.h {
                        return BestPackingReturn::TotalArea(total_inserted_area);
                    }
                },
            }
            proof {
                lemma_budget_step(s_head, t_head, tries_before_discarding as int);
                if s_head < 1 {
                    assert(step as int == s0 && w_head == w0 && h_head == h0);
                }
            }
        }

        let ghost s_prev = step as int;
        step = max_i32(1, half_i32(step));
        proof {
            if s_prev >= 2 {
                assert(half_spec(s_prev) == s_prev / 2);
                assert(1 <= s_prev / 2 && s_prev / 2 < s_prev) by (nonlinear_arith)
                    requires
                        s_prev >= 2,
                ;
                assert(step as int == s_prev / 2);
                assert(step_rank(s_prev) == step_rank(s_prev / 2) + 1);
            } else {
                assert(step as int == 1);
                assert(step_rank(1) == 1);
                assert(step_rank(s_prev) >= 1);
            }
        }
    }
}

pub(crate) fn try_pack<P: EmptySpacesProviderTrait>(
    root: &mut EmptySpaces<P>,
    ordering: &Vec<usize>,
    subjects: &Vec<RectXYWH>,
    starting_bin: RectWH,
    discard_step: i32,
    tried_dimension: BinDimension,
) -> (r: BestPackingReturn)
    requires
        old(root).inv(),
        valid_subjects(subjects@),
        valid_order(ordering@, subjects@),
        order_area_sum(subjects@, ordering@) <= i32::MAX,
        -SEARCH_LIMIT <= starting_bin.w <= SEARCH_LIMIT,
        -SEARCH_LIMIT <= starting_bin.h <= SEARCH_LIMIT,
        -DISCARD_LIMIT <= discard_step <= DISCARD_LIMIT,
    ensures
        final(root).inv(),
        match r {
            BestPackingReturn::Rect(rect) => {
                &&& rect.w <= abs(starting_bin.w as int) + abs(starting_bin.h as int) + 2
                &&& rect.h <= abs(starting_bin.w as int) + abs(starting_bin.h as int) + 2
                &&& rect.w >= -(2 * (abs(starting_bin.w as int) + abs(starting_bin.h as int))
                    + abs(discard_step as int) + 8)
                &&& rect.h >= -(2 * (abs(starting_bin.w as int) + abs(starting_bin.h as int))
                    + abs(discard_step as int) + 8)
                &&& order_fits_in(subjects@, ordering@, rect)
                &&& tried_dimension is Both ==> rect.w - rect.h == half_spec(
                    starting_bin.w as int,
                ) - half_spec(starting_bin.h as int)
                &&& tried_dimension is Both && starting_bin.w >= 0 && starting_bin.h >= 0 && rect.w
                    >= 0 && rect.h >= 0 ==> rect.w * rect.h <= starting_bin.w * starting_bin.h
                &&& tried_dimension is Width ==> rect.w <= max(starting_bin.w as int, 0) && rect.h
                    == starting_bin.h
                &&& tried_dimension is Height ==> rect.h <= max(starting_bin.h as int, 0) && rect.w
                    == starting_bin.w
            },
            BestPackingReturn::TotalArea(a) => {
                &&& 0 <= a <= order_area_sum(subjects@, ordering@)
                &&& exists|n: int|
                    0 <= n <= ordering@.len() && a == #[trigger] order_area_prefix(
                        subjects@,
                        ordering@,
                        n,
                    )
            },
        },
        ordering@.len() == 0 ==> r is Rect,
{
    best_packing_for_ordering_impl(root, ordering, subjects, starting_bin, discard_step, tried_dimension)
}

/// Run a single-dimension refinement pass, keeping the better bin.
fn trial<P: EmptySpacesProviderTrait>(
    root: &mut EmptySpaces<P>,
    ordering: &Vec<usize>,
    subjects: &Vec<RectXYWH>,
    best_bin: &mut RectWH,
    discard_step: i32,
    tried_dimension: BinDimension,
)
    requires
        old(root).inv(),
        valid_subjects(subjects@),
        valid_order(ordering@, subjects@),
        order_area_sum(subjects@, ordering@) <= i32::MAX,
        -SEARCH_LIMIT <= old(best_bin).w <= SEARCH_LIMIT,
        -SEARCH_LIMIT <= old(best_bin).h <= SEARCH_LIMIT,
        -DISCARD_LIMIT <= discard_step <= DISCARD_LIMIT,
    ensures
        final(root).inv(),
        final(best_bin).w <= abs(old(best_bin).w as int) + abs(old(best_bin).h as int) + 2,
        final(best_bin).h <= abs(old(best_bin).w as int) + abs(old(best_bin).h as int) + 2,
        final(best_bin).w >= -(2 * (abs(old(best_bin).w as int) + abs(old(best_bin).h as int))
            + abs(discard_step as int) + 8),
        final(best_bin).h >= -(2 * (abs(old(best_bin).w as int) + abs(old(best_bin).h as int))
            + abs(discard_step as int) + 8),
        *final(best_bin) == *old(best_bin) || order_fits_in(subjects@, ordering@, *final(best_bin)),
        tried_dimension is Width ==> final(best_bin).w <= max(old(best_bin).w as int, 0)
            && final(best_bin).h == old(best_bin).h,
        tried_dimension is Height ==> final(best_bin).h <= max(old(best_bin).h as int, 0)
            && final(best_bin).w == old(best_bin).w,
{
    match try_pack(root, ordering, subjects, *best_bin, discard_step, tried_dimension) {
        BestPackingReturn::Rect(better) => {
            *best_bin = better;
        },
        BestPackingReturn::TotalArea(_) => {},
    }
}

/// Full search for one order: a both-dimensions descent, refined (when it
/// found a fit) by one width-only and one height-only pass.
pub(crate) fn best_packing_for_ordering<P: EmptySpacesProviderTrait>(
    root: &mut EmptySpaces<P>,
    ordering: &Vec<usize>,
    subjects: &Vec<RectXYWH>,
    starting_bin: RectWH,
    discard_step: i32,
) -> (r: BestPackingReturn)
    requires
        old(root).inv(),
        valid_subjects(subjects@),
        valid_order(ordering@, subjects@),
        order_area_sum(subjects@, ordering@) <= i32::MAX,
        0 <= starting_bin.w <= MAX_BIN_SIDE_LIMIT,
        0 <= starting_bin.h <= MAX_BIN_SIDE_LIMIT,
        -DISCARD_LIMIT <= discard_step <= DISCARD_LIMIT,
    ensures
        final(root).inv(),
        match r {
            BestPackingReturn::Rect(rect) => {
                &&& -COORD_LIMIT <= rect.w <= COORD_LIMIT
                &&& -COORD_LIMIT <= rect.h <= COORD_LIMIT
                &&& order_fits_in(subjects@, ordering@, rect)
                &&& starting_bin.w == starting_bin.h ==> rect.w <= starting_bin.w && rect.h
                    <= starting_bin.h
            },
            BestPackingReturn::TotalArea(a) => {
                &&& 0 <= a <= order_area_sum(subjects@, ordering@)
                &&& exists|n: int|
                    0 <= n <= ordering@.len() && a == #[trigger] order_area_prefix(
                        subjects@,
                        ordering@,
                        n,
                    )
            },
        },
        ordering@.len() == 0 ==> r is Rect,
{
    let best_result = try_pack(
        root,
        ordering,
        subjects,
        starting_bin,
        discard_step,
        BinDimension::Both,
    );

    match best_result {
        BestPackingReturn::Rect(r) => {
            let mut refined: RectWH = r;
            proof {
                assert(abs(starting_bin.w as int) <= MAX_BIN_SIDE_LIMIT);
                assert(abs(starting_bin.h as int) <= MAX_BIN_SIDE_LIMIT);
                assert(abs(discard_step as int) <= DISCARD_LIMIT);
                assert(abs(refined.w as int) <= 4 * MAX_BIN_SIDE_LIMIT + DISCARD_LIMIT + 8);
                assert(abs(refined.h as int) <= 4 * MAX_BIN_SIDE_LIMIT + DISCARD_LIMIT + 8);
                if starting_bin.w == starting_bin.h {
                    assert(r.w == r.h);
                    if r.w >= 0 {
                        assert(r.w <= starting_bin.w) by (nonlinear_arith)
                            requires
                                r.w == r.h,
                                r.w >= 0,
                                starting_bin.w >= 0,
                                r.w * r.h <= starting_bin.w * starting_bin.h,
                                starting_bin.w == starting_bin.h,
                        ;
                    }
                    assert(r.w <= starting_bin.w && r.h <= starting_bin.h);
                }
            }
            trial(root, ordering, subjects, &mut refined, discard_step, BinDimension::Width);
            proof {
                assert(abs(refined.w as int) <= 16 * MAX_BIN_SIDE_LIMIT + 5 * DISCARD_LIMIT + 48);
                assert(abs(refined.h as int) <= 16 * MAX_BIN_SIDE_LIMIT + 5 * DISCARD_LIMIT + 48);
                if starting_bin.w == starting_bin.h {
                    assert(refined.w <= starting_bin.w && refined.h <= starting_bin.h);
                }
            }
            trial(root, ordering, subjects, &mut refined, discard_step, BinDimension::Height);
            proof {
                assert(abs(refined.w as int) <= 64 * MAX_BIN_SIDE_LIMIT + 21 * DISCARD_LIMIT + 208);
                assert(abs(refined.h as int) <= 64 * MAX_BIN_SIDE_LIMIT + 21 * DISCARD_LIMIT + 208);
                assert(-COORD_LIMIT <= refined.w <= COORD_LIMIT);
                assert(-COORD_LIMIT <= refined.h <= COORD_LIMIT);
                if starting_bin.w == starting_bin.h {
                    assert(refined.w <= starting_bin.w && refined.h <= starting_bin.h);
                }
            }
            BestPackingReturn::Rect(refined)
        },
        BestPackingReturn::TotalArea(a) => BestPackingReturn::TotalArea(a),
    }
}

/// Fold one order's search outcome into the running best: a fit beats any
/// non-fit; among fits the smaller area wins; among non-fits (while no fit
/// has been seen) the greater placed area wins.
fn for_each_order_lambda<P: EmptySpacesProviderTrait>(
    root: &mut EmptySpaces<P>,
    orders: &Vec<Vec<usize>>,
    order_idx: usize,
    subjects: &Vec<RectXYWH>,
    max_bin: RectWH,
    discard_step: i32,
    best_order: &mut Option<usize>,
    best_total_inserted: &mut i32,
    best_bin: &mut RectWH,
    found_fit: &mut bool,
)
    requires
        old(root).inv(),
        valid_subjects(subjects@),
        order_idx < orders@.len(),
        valid_order(orders@[order_idx as int]@, subjects@),
        order_area_sum(subjects@, orders@[order_idx as int]@) <= i32::MAX,
        0 <= max_bin.w <= MAX_BIN_SIDE_LIMIT,
        0 <= max_bin.h <= MAX_BIN_SIDE_LIMIT,
        max_bin.w == max_bin.h,
        -DISCARD_LIMIT <= discard_step <= DISCARD_LIMIT,
        -COORD_LIMIT <= old(best_bin).w <= COORD_LIMIT,
        -COORD_LIMIT <= old(best_bin).h <= COORD_LIMIT,
        old(best_bin).w <= max_bin.w,
        old(best_bin).h <= max_bin.h,
        (*old(best_order)) matches Some(k) ==> k < orders@.len(),
        (*old(best_order)) is None ==> !*old(found_fit) && *old(best_total_inserted) == -1,
        *old(found_fit) ==> exists|k2: int|
            0 <= k2 < orders@.len() && order_fits_in(
                subjects@,
                (#[trigger] orders@[k2])@,
                *old(best_bin),
            ),
    ensures
        final(root).inv(),
        (*final(best_order)).is_some(),
        (*final(best_order)) matches Some(k) ==> k < orders@.len(),
        *final(best_order) == *old(best_order) || *final(best_order) == Some(order_idx),
        -COORD_LIMIT <= final(best_bin).w <= COORD_LIMIT,
        -COORD_LIMIT <= final(best_bin).h <= COORD_LIMIT,
        final(best_bin).w <= max_bin.w,
        final(best_bin).h <= max_bin.h,
        *old(found_fit) ==> *final(found_fit),
        !*final(found_fit) ==> *final(best_bin) == *old(best_bin) && *final(best_total_inserted)
            >= *old(best_total_inserted),
        *old(found_fit) ==> *final(best_total_inserted) == *old(best_total_inserted),
        *old(found_fit) ==> final(best_bin).w * final(best_bin).h <= old(best_bin).w * old(
            best_bin,
        ).h,
        *final(found_fit) ==> exists|k2: int|
            0 <= k2 < orders@.len() && order_fits_in(
                subjects@,
                (#[trigger] orders@[k2])@,
                *final(best_bin),
            ),
{
    let ordering = &orders[order_idx];

    match best_packing_for_ordering(root, ordering, subjects, max_bin, discard_step) {
        BestPackingReturn::TotalArea(total_inserted) => {
            if !*found_fit && total_inserted > *best_total_inserted {
                *best_order = Some(order_idx);
                *best_total_inserted = total_inserted;
            }
        },
        BestPackingReturn::Rect(result_bin) => {
            if !*found_fit || area_i64(result_bin) <= area_i64(*best_bin) {
                *best_order = Some(order_idx);
                *best_bin = result_bin;
            }
            *found_fit = true;
        },
    }
}

/// A set of insertion orders over one subject list: each order valid, with
/// an area sum that fits the accumulator.
pub open spec fn valid_orders(orders: Seq<Vec<usize>>, s: Seq<RectXYWH>) -> bool {
    forall|k: int|
        0 <= k < orders.len() ==> valid_order((#[trigger] orders[k])@, s) && order_area_sum(
            s,
            orders[k]@,
        ) <= i32::MAX
}

/// Orchestrate a whole packing request: search every order, pick the best,
/// then run the winning order once more for real, writing each placed
/// rectangle back into the subject list and reporting each outcome through
/// the caller's callbacks.  Returns the tight bounding box actually used.
///
/// The contract carries the caller-visible guarantees: subjects keep their
/// sizes; zero-area subjects are never touched; every rewritten subject lies
/// within the returned bounding box; and no two rewritten subjects overlap.
#[verifier::loop_isolation(false)]
#[verifier::rlimit(100)]
#[verifier::spinoff_prover]
pub(crate) fn find_best_packing_impl<
    P: EmptySpacesProviderTrait,
    F: Fn(RectXYWH) -> CallbackResult,
    G: Fn(RectXYWH) -> CallbackResult,
>(
    root: &mut EmptySpaces<P>,
    subjects: &mut Vec<RectXYWH>,
    orders: &Vec<Vec<usize>>,
    input: &Input<F, G>,
) -> (result: RectWH)
    requires
        old(root).inv(),
        valid_subjects(old(subjects)@),
        valid_orders(orders@, old(subjects)@),
        orders_complete(orders@, old(subjects)@),
        0 <= input.max_bin_side <= MAX_BIN_SIDE_LIMIT,
        -DISCARD_LIMIT <= input.discard_step <= DISCARD_LIMIT,
        forall|r: RectXYWH| #[trigger] call_requires(input.handle_successful_insertion, (r,)),
        forall|r: RectXYWH| #[trigger] call_requires(input.handle_unsuccessful_insertion, (r,)),
    ensures
        final(root).inv(),
        packing_outcome(old(subjects)@, final(subjects)@, result),
        result.w <= input.max_bin_side,
        result.h <= input.max_bin_side,
        result.w == aabb_w(final(root).placed()),
        result.h == aabb_h(final(root).placed()),
        // Progress: with a store that never refuses, callbacks that never
        // abort, at least one order, and some subject that fits the budget,
        // something is placed, so the result is not empty.
        P::unbounded() && (forall|a: RectXYWH, y: CallbackResult|
            #[trigger] call_ensures(input.handle_successful_insertion, (a,), y)
                ==> y is ContinuePacking) && (forall|a: RectXYWH, y: CallbackResult|
            #[trigger] call_ensures(input.handle_unsuccessful_insertion, (a,), y)
                ==> y is ContinuePacking) && orders@.len() > 0 && (exists|i: usize|
            i < old(subjects)@.len() && 0 < (#[trigger] old(subjects)@[i as int]).w
                <= input.max_bin_side && 0 < old(subjects)@[i as int].h <= input.max_bin_side)
            ==> final(root).placed().len() > 0 && result.w > 0 && result.h > 0,
{
    let max_bin = RectWH::new(input.max_bin_side, input.max_bin_side);
    let ghost cb_continue = (forall|a: RectXYWH, y: CallbackResult|
        #[trigger] call_ensures(input.handle_successful_insertion, (a,), y)
            ==> y is ContinuePacking) && (forall|a: RectXYWH, y: CallbackResult|
        #[trigger] call_ensures(input.handle_unsuccessful_insertion, (a,), y)
            ==> y is ContinuePacking);
    let ghost some_fits = exists|i: usize|
        i < old(subjects)@.len() && 0 < (#[trigger] old(subjects)@[i as int]).w
            <= input.max_bin_side && 0 < old(subjects)@[i as int].h <= input.max_bin_side;
    let ghost progress = P::unbounded() && cb_continue && orders@.len() > 0 && some_fits;

    let mut best_order: Option<usize> = None;
    let mut best_total_inserted: i32 = -1;
    let mut best_bin: RectWH = max_bin;
    let mut found_fit: bool = false;

    let mut oi: usize = 0;
    while oi < orders.len()
        invariant
            root.inv(),
            subjects@ == old(subjects)@,
            oi <= orders@.len(),
            oi > 0 ==> best_order.is_some(),
            best_order matches Some(k) ==> k < orders@.len(),
            best_order is None ==> !found_fit && best_total_inserted == -1,
            -COORD_LIMIT <= best_bin.w <= COORD_LIMIT,
            -COORD_LIMIT <= best_bin.h <= COORD_LIMIT,
            best_bin.w <= max_bin.w,
            best_bin.h <= max_bin.h,
            !found_fit ==> best_bin == max_bin,
            found_fit ==> exists|k2: int|
                0 <= k2 < orders@.len() && order_fits_in(
                    subjects@,
                    (#[trigger] orders@[k2])@,
                    best_bin,
                ),
        decreases orders@.len() - oi,
    {
        for_each_order_lambda(
            root,
            orders,
            oi,
            subjects,
            max_bin,
            input.discard_step,
            &mut best_order,
            &mut best_total_inserted,
            &mut best_bin,
            &mut found_fit,
        );
        oi = oi + 1;
    }

    let chosen: usize = match best_order {
        Some(k) => k,
        None => {
            // No orders at all: nothing is placed, and the bounding box of
            // the freshly reset tracker is empty.
            root.reset(max_bin);
            let result = root.get_rects_aabb();
            proof {
                assert(placement_map_ok(
                    old(subjects)@,
                    subjects@,
                    root.placed(),
                    Map::<int, int>::empty(),
                    Seq::<int>::empty(),
                ));
            }
            return result;
        },
    };

    root.reset(best_bin);

    let ordering = &orders[chosen];
    let ghost orig = subjects@;
    let ghost mut m: Map<int, int> = Map::empty();
    let ghost mut owners: Seq<int> = Seq::empty();

    let mut aborted: bool = false;
    let mut j: usize = 0;

    while j < ordering.len() && !aborted
        invariant
            root.inv(),
            root.bin() == best_bin,
            j <= ordering@.len(),
            subjects@.len() == orig.len(),
            forall|i: int|
                #[trigger] m.dom().contains(i) ==> 0 <= i < orig.len() && 0 <= m[i]
                    < root.placed().len() && subjects@[i] == root.placed()[m[i]] && orig[i].w > 0
                    && orig[i].h > 0,
            forall|i1: int, i2: int|
                m.dom().contains(i1) && m.dom().contains(i2) && i1 != i2 ==> m[i1] != m[i2],
            forall|i: int|
                0 <= i < orig.len() && !m.dom().contains(i) ==> subjects@[i] == orig[i],
            forall|i: int|
                0 <= i < orig.len() ==> (#[trigger] subjects@[i]).w == orig[i].w && subjects@[i].h
                    == orig[i].h,
            forall|k: int|
                0 <= k < root.placed().len() ==> (#[trigger] root.placed()[k]).w > 0
                    && root.placed()[k].h > 0,
            owners.len() == root.placed().len(),
            forall|k: int|
                0 <= k < owners.len() ==> m.dom().contains(#[trigger] owners[k]) && m[owners[k]]
                    == k,
            forall|i: int|
                #[trigger] m.dom().contains(i) ==> exists|t: int|
                    #![trigger ordering@[t]]
                    0 <= t < j && ordering@[t] as int == i,
            progress ==> !aborted,
            progress && root.placed().len() == 0 ==> root.free_spaces() == seq![
                RectXYWH { x: 0, y: 0, w: best_bin.w, h: best_bin.h },
            ],
            progress && root.placed().len() == 0 ==> forall|t: int|
                #![trigger ordering@[t]]
                0 <= t < j ==> !(orig[ordering@[t] as int].w <= best_bin.w
                    && orig[ordering@[t] as int].h <= best_bin.h),
        decreases ordering@.len() - j,
    {
        let idx: usize = ordering[j];
        let rect_now = subjects[idx];
        let ghost placed_before = root.placed();
        let ghost free_before = root.free_spaces();

        match root.insert(RectWH::from_xywh(rect_now)) {
            Some(ret) => {
                let ghost placed_index = root.placed().len() - 1;
                proof {
                    // A repeated index would contradict the order's
                    // distinctness, so this subject has no placement yet.
                    if m.dom().contains(idx as int) {
                        let t = choose|t: int|
                            0 <= t < j && #[trigger] ordering@[t] as int == idx as int;
                        assert(ordering@[t] == ordering@[j as int]);
                        assert(false);
                    }
                }
                subjects.set(idx, ret);
                proof {
                    let ghost m_prev = m;
                    m = m.insert(idx as int, placed_index);
                    owners = owners.push(idx as int);
                    assert forall|k: int|
                        0 <= k < owners.len() implies m.dom().contains(#[trigger] owners[k])
                        && m[owners[k]] == k by {
                        if k < owners.len() - 1 {
                            assert(m_prev.dom().contains(owners[k]) && m_prev[owners[k]] == k);
                            assert(owners[k] != idx as int);
                        }
                    }
                }
                if let CallbackResult::AbortPacking = (input.handle_successful_insertion)(ret) {
                    proof {
                        if progress {
                            assert(false);
                        }
                    }
                    aborted = true;
                }
            },
            None => {
                proof {
                    if progress && placed_before.len() == 0 {
                        // With a store that never refuses, a failed insert
                        // means no free rectangle fit; the only one was the
                        // full bin, so this subject exceeds the bin.
                        assert(!space_fits(
                            free_before[0],
                            (RectWH { w: rect_now.w, h: rect_now.h }),
                        ));
                        assert(!(orig[idx as int].w <= best_bin.w && orig[idx as int].h
                            <= best_bin.h));
                    }
                }
                if let CallbackResult::AbortPacking = (input.handle_unsuccessful_insertion)(
                    rect_now,
                ) {
                    proof {
                        if progress {
                            assert(false);
                        }
                    }
                    aborted = true;
                }
            },
        }

        j = j + 1;
    }

    let result = root.get_rects_aabb();

    proof {
        crate::rect_structs::lemma_aabb_nonneg(root.placed());
        assert(placement_map_ok(orig, subjects@, root.placed(), m, owners));
        assert forall|k: int|
            0 <= k < root.placed().len() implies (#[trigger] root.placed()[k]).x >= 0
            && root.placed()[k].y >= 0 && root.placed()[k].w > 0 && root.placed()[k].h > 0
            && root.placed()[k].x + root.placed()[k].w <= result.w && root.placed()[k].y
            + root.placed()[k].h <= result.h by {
            lemma_placed_in_bin(root, k);
            lemma_aabb_covers(root.placed(), k);
        }
        assert forall|k1: int, k2: int|
            0 <= k1 < k2 < root.placed().len() implies rect_disjoint(
            #[trigger] root.placed()[k1],
            #[trigger] root.placed()[k2],
        ) by {
            lemma_placed_no_overlap(root, k1, k2);
        }
        assert forall|k: int|
            0 <= k < root.placed().len() implies (#[trigger] root.placed()[k]).x
                + root.placed()[k].w <= best_bin.w && root.placed()[k].y + root.placed()[k].h
            <= best_bin.h by {
            lemma_placed_in_bin(root, k);
        }
        crate::rect_structs::lemma_aabb_le(root.placed(), best_bin.w as int, best_bin.h as int);
        assert(packing_outcome(orig, subjects@, result));
        if progress && root.placed().len() == 0 {
            // Some subject fits the budget; it is in the winning order, and
            // with nothing placed the full bin was still free when its turn
            // came, so the loop would have placed it.
            let istar = choose|i: usize|
                i < orig.len() && 0 < (#[trigger] orig[i as int]).w <= input.max_bin_side && 0
                    < orig[i as int].h <= input.max_bin_side;
            assert(orders@[chosen as int]@.contains((istar as int) as usize));
            assert(orders@[chosen as int]@.contains(istar));
            let tstar = choose|t: int|
                0 <= t < ordering@.len() && #[trigger] ordering@[t] == istar;
            if found_fit {
                let k2 = choose|k2: int|
                    0 <= k2 < orders@.len() && order_fits_in(orig, (#[trigger] orders@[k2])@, best_bin);
                let pl2 = choose|pl: Seq<RectXYWH>| is_fit_witness(pl, orig, orders@[k2]@, best_bin);
                assert(orders@[k2]@.contains((istar as int) as usize));
                assert(orders@[k2]@.contains(istar));
                let t2 = choose|t: int|
                    0 <= t < orders@[k2]@.len() && #[trigger] orders@[k2]@[t] == istar;
                assert(placed_in_bin(pl2[t2], best_bin));
                assert(pl2[t2].w == orig[istar as int].w && pl2[t2].h == orig[istar as int].h);
            } else {
                assert(best_bin == max_bin);
            }
            assert(orig[istar as int].w <= best_bin.w && orig[istar as int].h <= best_bin.h);
            assert(!aborted && j == ordering@.len());
            assert(!(orig[ordering@[tstar] as int].w <= best_bin.w
                && orig[ordering@[tstar] as int].h <= best_bin.h));
            assert(ordering@[tstar] == istar);
            assert(false);
        }
        if progress {
            lemma_placed_in_bin(root, 0);
            lemma_aabb_covers(root.placed(), 0);
        }
    }

    result
}

} // verus!
