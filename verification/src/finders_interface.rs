//! The packer's user-facing surface: the `Input` parameter block, the
//! candidate insertion orders, and the top-level orchestration entry points.

use vstd::prelude::*;

verus! {

use vstd::math::max;
use vstd::seq_lib::lemma_multiset_commutative;
use crate::best_bin_finder::{
    CallbackResult,
    find_best_packing_impl,
    order_area_prefix,
    order_area_sum,
    order_elems_ok,
    orders_complete,
    valid_order,
    valid_orders,
};
use crate::empty_spaces::{EmptySpaces, EmptySpacesProviderTrait};
use crate::rect_structs::{
    DISCARD_LIMIT,
    aabb_h,
    aabb_w,
    MAX_BIN_SIDE_LIMIT,
    RectWH,
    RectXYWH,
    area_sum,
    item_fits_limits,
    packing_outcome,
    valid_subjects,
};

/// Settings for a packing request: the bin-side budget, the search
/// granularity, and the two callbacks the final pass reports through.
pub struct Input<F: Fn(RectXYWH) -> CallbackResult, G: Fn(RectXYWH) -> CallbackResult> {
    pub max_bin_side: i32,
    pub discard_step: i32,
    pub handle_successful_insertion: F,
    pub handle_unsuccessful_insertion: G,
}

impl<F: Fn(RectXYWH) -> CallbackResult, G: Fn(RectXYWH) -> CallbackResult> Input<F, G> {
    pub fn new(
        max_bin_side: i32,
        discard_step: i32,
        handle_successful_insertion: F,
        handle_unsuccessful_insertion: G,
    ) -> (r: Self)
        ensures
            r.max_bin_side == max_bin_side,
            r.discard_step == discard_step,
            r.handle_successful_insertion == handle_successful_insertion,
            r.handle_unsuccessful_insertion == handle_unsuccessful_insertion,
    {
        Self { max_bin_side, discard_step, handle_successful_insertion, handle_unsuccessful_insertion }
    }
}

/// The sort keys the packer derives candidate insertion orders from.  Each
/// order sorts the subjects descending on one of these.
#[derive(Clone, Copy)]
pub enum OrderingKey {
    Area,
    Perimeter,
    MaxSide,
    Width,
    Height,
}

/// The value an ordering key assigns to a rectangle.
pub open spec fn key_spec(k: OrderingKey, r: RectXYWH) -> int {
    match k {
        OrderingKey::Area => r.w * r.h,
        OrderingKey::Perimeter => 2 * r.w + 2 * r.h,
        OrderingKey::MaxSide => max(r.w as int, r.h as int),
        OrderingKey::Width => r.w as int,
        OrderingKey::Height => r.h as int,
    }
}

/// The order lists its subjects with keys descending.
pub open spec fn sorted_desc(s: Seq<RectXYWH>, o: Seq<usize>, k: OrderingKey) -> bool {
    forall|p: int, q: int|
        0 <= p < q < o.len() ==> key_spec(k, s[(#[trigger] o[p]) as int]) >= key_spec(
            k,
            s[(#[trigger] o[q]) as int],
        )
}

fn key_of(k: OrderingKey, r: RectXYWH) -> (v: i32)
    requires
        item_fits_limits(r),
    ensures
        v as int == key_spec(k, r),
{
    match k {
        OrderingKey::Area => r.w * r.h,
        OrderingKey::Perimeter => 2 * r.w + 2 * r.h,
        OrderingKey::MaxSide => {
            if r.w >= r.h {
                r.w
            } else {
                r.h
            }
        },
        OrderingKey::Width => r.w,
        OrderingKey::Height => r.h,
    }
}

/// Area sums over the first `n` entries agree for orders that agree there.
proof fn lemma_order_prefix_agree(s: Seq<RectXYWH>, o1: Seq<usize>, o2: Seq<usize>, n: int)
    requires
        n <= o1.len(),
        n <= o2.len(),
        forall|t: int| 0 <= t < n ==> o1[t] == o2[t],
    ensures
        order_area_prefix(s, o1, n) == order_area_prefix(s, o2, n),
    decreases n,
{
    if n > 0 {
        lemma_order_prefix_agree(s, o1, o2, n - 1);
    }
}

/// Swapping two adjacent entries of an order leaves its area sum unchanged.
proof fn lemma_order_swap_area(s: Seq<RectXYWH>, o1: Seq<usize>, o2: Seq<usize>, a: int, n: int)
    requires
        0 <= a,
        a + 1 < o1.len(),
        o2.len() == o1.len(),
        o2 == o1.update(a, o1[a + 1]).update(a + 1, o1[a]),
        a + 2 <= n <= o1.len(),
    ensures
        order_area_prefix(s, o1, n) == order_area_prefix(s, o2, n),
    decreases n,
{
    if n == a + 2 {
        lemma_order_prefix_agree(s, o1, o2, a);
        assert(order_area_prefix(s, o1, a + 1) == order_area_prefix(s, o1, a) + s[o1[a] as int].w
            * s[o1[a] as int].h);
        assert(order_area_prefix(s, o1, a + 2) == order_area_prefix(s, o1, a + 1) + s[o1[a
            + 1] as int].w * s[o1[a + 1] as int].h);
        assert(order_area_prefix(s, o2, a + 1) == order_area_prefix(s, o2, a) + s[o2[a] as int].w
            * s[o2[a] as int].h);
        assert(order_area_prefix(s, o2, a + 2) == order_area_prefix(s, o2, a + 1) + s[o2[a
            + 1] as int].w * s[o2[a + 1] as int].h);
    } else {
        lemma_order_swap_area(s, o1, o2, a, n - 1);
    }
}

/// Swapping two adjacent entries of a sequence keeps its multiset.
proof fn lemma_swap_adjacent_multiset(o1: Seq<usize>, o2: Seq<usize>, a: int)
    requires
        0 <= a,
        a + 1 < o1.len(),
        o2.len() == o1.len(),
        o2 == o1.update(a, o1[a + 1]).update(a + 1, o1[a]),
    ensures
        o1.to_multiset() == o2.to_multiset(),
{
    broadcast use vstd::seq_lib::group_to_multiset_ensures;

    let pre = o1.subrange(0, a);
    let mid1 = seq![o1[a], o1[a + 1]];
    let mid2 = seq![o1[a + 1], o1[a]];
    let post = o1.subrange(a + 2, o1.len() as int);

    assert(o1 =~= (pre + mid1) + post);
    assert(o2 =~= (pre + mid2) + post);

    lemma_multiset_commutative(pre + mid1, post);
    lemma_multiset_commutative(pre + mid2, post);
    lemma_multiset_commutative(pre, mid1);
    lemma_multiset_commutative(pre, mid2);

    assert(mid1 =~= Seq::<usize>::empty().push(o1[a]).push(o1[a + 1]));
    assert(mid2 =~= Seq::<usize>::empty().push(o1[a + 1]).push(o1[a]));
    assert(mid1.to_multiset() =~= mid2.to_multiset());
    assert(((pre + mid1) + post).to_multiset() =~= ((pre + mid2) + post).to_multiset());
}

/// Insertion sort of an order, descending on the given key.  The
/// implementation swaps only on strictly smaller keys, so equal keys keep
/// their relative order; the contract states sortedness and that the result
/// is a permutation (equal multiset, equal membership) of the input.
#[verifier::loop_isolation(false)]
#[verifier::rlimit(100)]
fn sort_order(order: &mut Vec<usize>, subjects: &Vec<RectXYWH>, k: OrderingKey)
    requires
        valid_subjects(subjects@),
        valid_order(old(order)@, subjects@),
    ensures
        final(order)@.len() == old(order)@.len(),
        valid_order(final(order)@, subjects@),
        final(order)@.to_multiset() == old(order)@.to_multiset(),
        forall|x: usize| final(order)@.contains(x) == old(order)@.contains(x),
        order_area_sum(subjects@, final(order)@) == order_area_sum(subjects@, old(order)@),
        sorted_desc(subjects@, final(order)@, k),
{
    let ghost orig = old(order)@;
    let n: usize = order.len();
    let mut i: usize = 1;

    while i < n
        invariant
            1 <= i,
            i <= n || i == 1,
            n == order@.len(),
            order_elems_ok(order@, subjects@),
            order@.to_multiset() == orig.to_multiset(),
            order_area_sum(subjects@, order@) == order_area_sum(subjects@, orig),
            forall|p: int, q: int|
                0 <= p < q < i ==> key_spec(k, subjects@[(#[trigger] order@[p]) as int])
                    >= key_spec(k, subjects@[(#[trigger] order@[q]) as int]),
        decreases n - i,
    {
        let mut j: usize = i;
        let mut settled: bool = false;

        while j > 0 && !settled
            invariant
                0 <= j <= i < n,
                n == order@.len(),
                order_elems_ok(order@, subjects@),
                order@.to_multiset() == orig.to_multiset(),
                order_area_sum(subjects@, order@) == order_area_sum(subjects@, orig),
                forall|p: int, q: int|
                    0 <= p < q <= i && q != j ==> key_spec(
                        k,
                        subjects@[(#[trigger] order@[p]) as int],
                    ) >= key_spec(k, subjects@[(#[trigger] order@[q]) as int]),
                forall|q: int|
                    j < q <= i ==> key_spec(k, subjects@[(#[trigger] order@[q]) as int]) < key_spec(
                        k,
                        subjects@[order@[j as int] as int],
                    ),
                settled ==> j > 0 && key_spec(k, subjects@[order@[j - 1] as int]) >= key_spec(
                    k,
                    subjects@[order@[j as int] as int],
                ),
            decreases j, (if settled { 0int } else { 1int }),
        {
            let prev: usize = order[j - 1];
            let here: usize = order[j];

            if key_of(k, subjects[prev]) < key_of(k, subjects[here]) {
                let ghost before = order@;
                order.set(j - 1, here);
                order.set(j, prev);
                proof {
                    let after = order@;
                    assert(after =~= before.update(j - 1, before[j as int]).update(
                        j as int,
                        before[j - 1],
                    ));
                    lemma_swap_adjacent_multiset(before, after, j - 1);
                    lemma_order_swap_area(subjects@, before, after, j - 1, before.len() as int);
                }
                j = j - 1;
            } else {
                settled = true;
            }
        }

        i = i + 1;
    }

    proof {
        broadcast use vstd::seq_lib::group_to_multiset_ensures;

        orig.lemma_multiset_has_no_duplicates();
        order@.lemma_multiset_has_no_duplicates_conv();
        assert forall|x: usize| order@.contains(x) == orig.contains(x) by {
            assert(order@.contains(x) <==> order@.to_multiset().count(x) > 0);
            assert(orig.contains(x) <==> orig.to_multiset().count(x) > 0);
        }
    }
}

/// The base insertion order: the indices of every subject with positive
/// sides, ascending.  Zero-area subjects appear in no order.
#[verifier::loop_isolation(false)]
fn build_base_order(subjects: &Vec<RectXYWH>) -> (o: Vec<usize>)
    requires
        valid_subjects(subjects@),
    ensures
        valid_order(o@, subjects@),
        order_area_sum(subjects@, o@) <= area_sum(subjects@),
        forall|t1: int, t2: int| 0 <= t1 < t2 < o@.len() ==> o@[t1] < o@[t2],
        forall|i: int|
            0 <= i < subjects@.len() && subjects@[i].w > 0 && subjects@[i].h > 0
                ==> o@.contains(i as usize),
{
    let mut o: Vec<usize> = Vec::new();
    let mut i: usize = 0;

    while i < subjects.len()
        invariant
            i <= subjects@.len(),
            order_elems_ok(o@, subjects@),
            order_area_sum(subjects@, o@) <= area_sum_upto(subjects@, i as int),
            forall|t: int| 0 <= t < o@.len() ==> (#[trigger] o@[t]) < i,
            forall|t1: int, t2: int| 0 <= t1 < t2 < o@.len() ==> o@[t1] < o@[t2],
            forall|ii: int|
                0 <= ii < i && subjects@[ii].w > 0 && subjects@[ii].h > 0 ==> exists|t: int|
                    0 <= t < o@.len() && o@[t] == ii,
        decreases subjects@.len() - i,
    {
        let r = subjects[i];
        if r.w > 0 && r.h > 0 {
            let ghost before = o@;
            o.push(i);
            proof {
                lemma_order_prefix_agree(subjects@, before, o@, before.len() as int);
                assert(order_area_sum(subjects@, o@) == order_area_sum(subjects@, before) + r.w
                    * r.h);
                assert forall|ii: int|
                    0 <= ii < i as int + 1 && subjects@[ii].w > 0 && subjects@[ii].h
                        > 0 implies exists|t: int| 0 <= t < o@.len() && o@[t] == ii by {
                    if ii < i as int {
                        let t = choose|t: int| 0 <= t < before.len() && before[t] == ii;
                        assert(o@[t] == ii);
                    } else {
                        assert(o@[o@.len() - 1] == ii);
                    }
                }
            }
        } else {
            proof {
                assert(r.w * r.h >= 0) by (nonlinear_arith)
                    requires
                        r.w >= 0,
                        r.h >= 0,
                ;
            }
        }
        i = i + 1;
    }

    proof {
        lemma_area_sum_is_upto(subjects@, subjects@.len() as int);
        assert(o@.no_duplicates()) by {
            assert forall|t1: int, t2: int|
                0 <= t1 < o@.len() && 0 <= t2 < o@.len() && t1 != t2 implies o@[t1] != o@[t2] by {
                if t1 < t2 {
                    assert(o@[t1] < o@[t2]);
                } else {
                    assert(o@[t2] < o@[t1]);
                }
            }
        }
        assert forall|ii: int|
            0 <= ii < subjects@.len() && subjects@[ii].w > 0 && subjects@[ii].h
                > 0 implies o@.contains(ii as usize) by {
            let t = choose|t: int| 0 <= t < o@.len() && o@[t] == ii;
            assert(o@[t] == ii as usize);
        }
    }
    o
}

/// Area of the first `n` subjects.
pub open spec fn area_sum_upto(s: Seq<RectXYWH>, n: int) -> int
    decreases n,
{
    if n <= 0 {
        0
    } else {
        area_sum_upto(s, n - 1) + s[n - 1].w * s[n - 1].h
    }
}

/// The prefix formulation of the total area agrees with `area_sum`.
proof fn lemma_area_sum_is_upto(s: Seq<RectXYWH>, n: int)
    requires
        0 <= n <= s.len(),
    ensures
        area_sum_upto(s, n) == area_sum(s.subrange(0, n)),
        n == s.len() ==> area_sum_upto(s, n) == area_sum(s),
    decreases n,
{
    if n > 0 {
        lemma_area_sum_is_upto(s, n - 1);
        assert(s.subrange(0, n).drop_last() =~= s.subrange(0, n - 1));
    }
    if n == s.len() {
        assert(s.subrange(0, n) =~= s);
    }
}

/// A copy of an order, element by element.
fn copy_order(src: &Vec<usize>) -> (o: Vec<usize>)
    ensures
        o@ == src@,
{
    let mut o: Vec<usize> = Vec::new();
    let mut i: usize = 0;
    while i < src.len()
        invariant
            i <= src@.len(),
            o@ == src@.subrange(0, i as int),
        decreases src@.len() - i,
    {
        o.push(src[i]);
        proof {
            assert(o@ =~= src@.subrange(0, i + 1));
        }
        i = i + 1;
    }
    proof {
        assert(o@ =~= src@);
    }
    o
}

/// Build one sorted insertion order per requested key.  The first order
/// sorts the base order; every later one re-sorts a copy of the first, so
/// ties fall back to the first key's arrangement, then to subject order.
#[verifier::loop_isolation(false)]
fn build_orders(subjects: &Vec<RectXYWH>, keys: &Vec<OrderingKey>) -> (orders: Vec<Vec<usize>>)
    requires
        valid_subjects(subjects@),
    ensures
        orders@.len() == keys@.len(),
        valid_orders(orders@, subjects@),
        orders_complete(orders@, subjects@),
        forall|k: int|
            0 <= k < orders@.len() ==> sorted_desc(subjects@, (#[trigger] orders@[k])@, keys@[k]),
{
    let mut all: Vec<Vec<usize>> = Vec::new();

    if keys.len() == 0 {
        return all;
    }

    let mut first = build_base_order(subjects);
    sort_order(&mut first, subjects, keys[0]);
    let ghost first_view = first@;
    all.push(first);

    let mut k: usize = 1;
    while k < keys.len()
        invariant
            1 <= k <= keys@.len(),
            all@.len() == k,
            all@[0]@ == first_view,
            valid_order(first_view, subjects@),
            order_area_sum(subjects@, first_view) <= area_sum(subjects@),
            forall|t: int|
                0 <= t < all@.len() ==> valid_order((#[trigger] all@[t])@, subjects@)
                    && order_area_sum(subjects@, all@[t]@) <= area_sum(subjects@) && sorted_desc(
                    subjects@,
                    all@[t]@,
                    keys@[t],
                ),
            forall|t: int, ii: int|
                #![trigger all@[t]@.contains(ii as usize)]
                0 <= t < all@.len() && 0 <= ii < subjects@.len() && subjects@[ii].w > 0
                    && subjects@[ii].h > 0 ==> all@[t]@.contains(ii as usize),
        decreases keys@.len() - k,
    {
        let mut next = copy_order(&all[0]);
        sort_order(&mut next, subjects, keys[k]);
        all.push(next);
        k = k + 1;
    }

    all
}

/// Pack the subjects using caller-chosen ordering keys.  The subjects'
/// `x` and `y` components are filled in for every placed rectangle; the
/// returned size is the tight bounding box actually occupied.
pub fn find_best_packing_ordered<
    EmptySpacesType: EmptySpacesProviderTrait,
    F: Fn(RectXYWH) -> CallbackResult,
    G: Fn(RectXYWH) -> CallbackResult,
>(
    root: &mut EmptySpaces<EmptySpacesType>,
    subjects: &mut Vec<RectXYWH>,
    input: &Input<F, G>,
    orders: &Vec<OrderingKey>,
) -> (result: RectWH)
    requires
        old(root).inv(),
        valid_subjects(old(subjects)@),
        0 <= input.max_bin_side <= MAX_BIN_SIDE_LIMIT,
        -DISCARD_LIMIT <= input.discard_step <= DISCARD_LIMIT,
        forall|r: RectXYWH| #[trigger] call_requires(input.handle_successful_insertion, (r,)),
        forall|r: RectXYWH| #[trigger] call_requires(input.handle_unsuccessful_insertion, (r,)),
    ensures
        final(root).inv(),
        packing_outcome(old(subjects)@, final(subjects)@, result),
        result.w <= input.max_bin_side,
        result.h <= input.max_bin_side,
        result.w == aabb_w(final(root).placed()),
        result.h == aabb_h(final(root).placed()),
        EmptySpacesType::unbounded() && (forall|a: RectXYWH, y: CallbackResult|
            #[trigger] call_ensures(input.handle_successful_insertion, (a,), y)
                ==> y is ContinuePacking) && (forall|a: RectXYWH, y: CallbackResult|
            #[trigger] call_ensures(input.handle_unsuccessful_insertion, (a,), y)
                ==> y is ContinuePacking) && orders@.len() > 0 && (exists|i: usize|
            i < old(subjects)@.len() && 0 < (#[trigger] old(subjects)@[i as int]).w
                <= input.max_bin_side && 0 < old(subjects)@[i as int].h <= input.max_bin_side)
            ==> final(root).placed().len() > 0 && result.w > 0 && result.h > 0,
{
    let built = build_orders(subjects, orders);
    proof {
        assert(built@.len() == orders@.len());
    }
    find_best_packing_impl(root, subjects, &built, input)
}

/// Pack the subjects, trying five insertion orders: descending by area,
/// perimeter, longer side, width, and height.
pub fn find_best_packing<
    EmptySpacesType: EmptySpacesProviderTrait,
    F: Fn(RectXYWH) -> CallbackResult,
    G: Fn(RectXYWH) -> CallbackResult,
>(
    root: &mut EmptySpaces<EmptySpacesType>,
    subjects: &mut Vec<RectXYWH>,
    input: &Input<F, G>,
) -> (result: RectWH)
    requires
        old(root).inv(),
        valid_subjects(old(subjects)@),
        0 <= input.max_bin_side <= MAX_BIN_SIDE_LIMIT,
        -DISCARD_LIMIT <= input.discard_step <= DISCARD_LIMIT,
        forall|r: RectXYWH| #[trigger] call_requires(input.handle_successful_insertion, (r,)),
        forall|r: RectXYWH| #[trigger] call_requires(input.handle_unsuccessful_insertion, (r,)),
    ensures
        final(root).inv(),
        packing_outcome(old(subjects)@, final(subjects)@, result),
        result.w <= input.max_bin_side,
        result.h <= input.max_bin_side,
        result.w == aabb_w(final(root).placed()),
        result.h == aabb_h(final(root).placed()),
        EmptySpacesType::unbounded() && (forall|a: RectXYWH, y: CallbackResult|
            #[trigger] call_ensures(input.handle_successful_insertion, (a,), y)
                ==> y is ContinuePacking) && (forall|a: RectXYWH, y: CallbackResult|
            #[trigger] call_ensures(input.handle_unsuccessful_insertion, (a,), y)
                ==> y is ContinuePacking) && (exists|i: usize|
            i < old(subjects)@.len() && 0 < (#[trigger] old(subjects)@[i as int]).w
                <= input.max_bin_side && 0 < old(subjects)@[i as int].h <= input.max_bin_side)
            ==> final(root).placed().len() > 0 && result.w > 0 && result.h > 0,
{
    let mut keys: Vec<OrderingKey> = Vec::new();
    keys.push(OrderingKey::Area);
    keys.push(OrderingKey::Perimeter);
    keys.push(OrderingKey::MaxSide);
    keys.push(OrderingKey::Width);
    keys.push(OrderingKey::Height);

    find_best_packing_ordered(root, subjects, input, &keys)
}

/// Pack the subjects in the order the caller gave them (zero-area subjects
/// still excluded), without trying any sorted orders.
pub fn find_best_packing_dont_sort<
    EmptySpacesType: EmptySpacesProviderTrait,
    F: Fn(RectXYWH) -> CallbackResult,
    G: Fn(RectXYWH) -> CallbackResult,
>(
    root: &mut EmptySpaces<EmptySpacesType>,
    subjects: &mut Vec<RectXYWH>,
    input: &Input<F, G>,
) -> (result: RectWH)
    requires
        old(root).inv(),
        valid_subjects(old(subjects)@),
        0 <= input.max_bin_side <= MAX_BIN_SIDE_LIMIT,
        -DISCARD_LIMIT <= input.discard_step <= DISCARD_LIMIT,
        forall|r: RectXYWH| #[trigger] call_requires(input.handle_successful_insertion, (r,)),
        forall|r: RectXYWH| #[trigger] call_requires(input.handle_unsuccessful_insertion, (r,)),
    ensures
        final(root).inv(),
        packing_outcome(old(subjects)@, final(subjects)@, result),
        result.w <= input.max_bin_side,
        result.h <= input.max_bin_side,
        result.w == aabb_w(final(root).placed()),
        result.h == aabb_h(final(root).placed()),
        EmptySpacesType::unbounded() && (forall|a: RectXYWH, y: CallbackResult|
            #[trigger] call_ensures(input.handle_successful_insertion, (a,), y)
                ==> y is ContinuePacking) && (forall|a: RectXYWH, y: CallbackResult|
            #[trigger] call_ensures(input.handle_unsuccessful_insertion, (a,), y)
                ==> y is ContinuePacking) && (exists|i: usize|
            i < old(subjects)@.len() && 0 < (#[trigger] old(subjects)@[i as int]).w
                <= input.max_bin_side && 0 < old(subjects)@[i as int].h <= input.max_bin_side)
            ==> final(root).placed().len() > 0 && result.w > 0 && result.h > 0,
{
    let base = build_base_order(subjects);
    let ghost base_view = base@;
    let mut single: Vec<Vec<usize>> = Vec::new();
    single.push(base);
    proof {
        assert forall|k: int, i: int|
            #![trigger single@[k]@.contains(i as usize)]
            0 <= k < single@.len() && 0 <= i < subjects@.len() && subjects@[i].w > 0
                && subjects@[i].h > 0 implies single@[k]@.contains(i as usize) by {
            assert(single@[k]@ == base_view);
        }
        assert(orders_complete(single@, subjects@));
    }
    find_best_packing_impl(root, subjects, &single, input)
}

} // verus!
