//! The grid of candidate positions.
//!
//! Along each axis a box may start at any offset that is a sum of box
//! extents, as long as the offset stays below the extent of the border.
//! The candidate positions of one box are the points of the resulting
//! grid at which the box lies within the border.

use crate::geometry::{Box, Position};
use vstd::prelude::*;
use vstd::seq_lib::lemma_no_dup_in_concat;

verus! {

/// `v` is a sum of zero or more positive entries of `extents`, where an
/// entry may be taken any number of times.
pub open spec fn is_sum_of(extents: Seq<i32>, v: int) -> bool
    decreases v,
{
    v == 0 || (v > 0 && exists|i: int|
        0 <= i < extents.len() && 0 < #[trigger] extents[i] <= v && is_sum_of(extents, v - extents[i]))
}

/// `v` is reached from `start` by adding positive entries of `extents`,
/// and lies below `limit`.
pub open spec fn is_offset(start: int, extents: Seq<i32>, limit: int, v: int) -> bool {
    start <= v < limit && is_sum_of(extents, v - start)
}

/// Every element is smaller than the one after it.
pub open spec fn strictly_increasing(s: Seq<i32>) -> bool {
    forall|i: int, j: int| 0 <= i < j < s.len() ==> s[i] < s[j]
}

/// Adding a positive entry to a sum gives a sum again.
pub proof fn lemma_sum_step(extents: Seq<i32>, v: int, i: int)
    requires
        is_sum_of(extents, v),
        0 <= i < extents.len(),
        extents[i] > 0,
    ensures
        is_sum_of(extents, v + extents[i]),
{
    let w = v + extents[i];
    assert(0 < extents[i] <= w && is_sum_of(extents, w - extents[i]));
}

/// The sum of two sums is a sum again.
pub proof fn lemma_sums_add(extents: Seq<i32>, v: int, w: int)
    requires
        is_sum_of(extents, v),
        is_sum_of(extents, w),
    ensures
        is_sum_of(extents, v + w),
    decreases w,
{
    if w != 0 {
        let i = choose|i: int|
            0 <= i < extents.len() && 0 < #[trigger] extents[i] <= w && is_sum_of(extents, w - extents[i]);
        lemma_sums_add(extents, v, w - extents[i]);
        lemma_sum_step(extents, v + w - extents[i], i);
    }
}

/// The offsets between `start` and `limit`, in increasing order.
pub open spec fn offsets(start: int, extents: Seq<i32>, limit: int) -> Seq<i32>
    decreases limit - start,
{
    if limit <= start {
        Seq::empty()
    } else {
        let below = offsets(start, extents, limit - 1);
        if is_sum_of(extents, limit - 1 - start) {
            below.push((limit - 1) as i32)
        } else {
            below
        }
    }
}

/// `offsets` lists exactly the offsets, each once and in increasing order.
pub proof fn lemma_offsets(start: i32, extents: Seq<i32>, limit: i32)
    ensures
        strictly_increasing(offsets(start as int, extents, limit as int)),
        forall|v: i32|
            #![trigger offsets(start as int, extents, limit as int).contains(v)]
            offsets(start as int, extents, limit as int).contains(v) <==> is_offset(
                start as int,
                extents,
                limit as int,
                v as int,
            ),
    decreases limit - start,
{
    let all = offsets(start as int, extents, limit as int);
    if limit > start {
        let top = (limit - 1) as i32;
        let below = offsets(start as int, extents, top as int);
        lemma_offsets(start, extents, top);
        assert forall|k: int| 0 <= k < below.len() implies below[k] < top by {
            assert(below.contains(below[k]));
        }
        assert forall|v: i32| #![trigger all.contains(v)] all.contains(v) <==> is_offset(
            start as int,
            extents,
            limit as int,
            v as int,
        ) by {
            if all.contains(v) {
                let k = choose|k: int| 0 <= k < all.len() && all[k] == v;
                if k < below.len() {
                    assert(below.contains(below[k]));
                }
            }
            if is_offset(start as int, extents, limit as int, v as int) {
                if v == top {
                    assert(all[all.len() - 1] == v);
                } else {
                    assert(below.contains(v));
                    let k = choose|k: int| 0 <= k < below.len() && below[k] == v;
                    assert(all[k] == v);
                }
            }
        }
    }
}

/// Two increasing lists with the same elements are the same list.
pub proof fn lemma_increasing_lists_equal(a: Seq<i32>, b: Seq<i32>)
    requires
        strictly_increasing(a),
        strictly_increasing(b),
        forall|x: i32| #![trigger a.contains(x)] #![trigger b.contains(x)] a.contains(x) <==> b.contains(x),
    ensures
        a == b,
    decreases a.len(),
{
    if a.len() == 0 {
        if b.len() > 0 {
            assert(b.contains(b[0]));
        }
        assert(a =~= b);
    } else {
        let top = a.last();
        assert(a.contains(top));
        assert(b.contains(top));
        let at = choose|at: int| 0 <= at < b.len() && b[at] == top;
        if at < b.len() - 1 {
            assert(b.contains(b.last()));
            let back = choose|back: int| 0 <= back < a.len() && a[back] == b.last();
            assert(a[back] <= top);
        }
        let a0 = a.drop_last();
        let b0 = b.drop_last();
        assert forall|x: i32| a0.contains(x) <==> b0.contains(x) by {
            if a0.contains(x) {
                let k = choose|k: int| 0 <= k < a0.len() && a0[k] == x;
                assert(a[k] == x && a[k] < top);
                assert(a.contains(x));
                let m = choose|m: int| 0 <= m < b.len() && b[m] == x;
                assert(b0[m] == x);
            }
            if b0.contains(x) {
                let k = choose|k: int| 0 <= k < b0.len() && b0[k] == x;
                assert(b[k] == x && b[k] < top);
                assert(b.contains(x));
                let m = choose|m: int| 0 <= m < a.len() && a[m] == x;
                assert(a0[m] == x);
            }
        }
        lemma_increasing_lists_equal(a0, b0);
        assert(a =~= a0.push(top));
        assert(b =~= b0.push(top));
    }
}

/// Puts `value` into an increasing list, unless it is there already.
fn insert_sorted(list: &mut Vec<i32>, value: i32)
    requires
        strictly_increasing(old(list)@),
    ensures
        strictly_increasing(final(list)@),
        forall|x: i32|
            #![trigger final(list)@.contains(x)]
            #![trigger old(list)@.contains(x)]
            final(list)@.contains(x) <==> (old(list)@.contains(x) || x == value),
        final(list)@.len() >= old(list)@.len(),
        forall|k: int| 0 <= k < old(list)@.len() && old(list)@[k] < value ==> final(list)@[k] == old(list)@[k],
{
    let mut at: usize = 0;
    while at < list.len() && list[at] < value
        invariant
            0 <= at <= list.len(),
            forall|k: int| 0 <= k < at ==> list@[k] < value,
        decreases list.len() - at,
    {
        at += 1;
    }
    if at < list.len() && list[at] == value {
        assert(list@.contains(value));
        return;
    }
    let ghost before = list@;
    list.insert(at, value);
    proof {
        let after = list@;
        assert(after == before.insert(at as int, value));
        assert forall|i: int, j: int| 0 <= i < j < after.len() implies after[i] < after[j] by {
            if j < at {
            } else if j == at {
            } else {
                assert(after[j] == before[j - 1]);
                if i < at {
                } else if i == at {
                } else {
                    assert(after[i] == before[i - 1]);
                }
            }
        }
        assert forall|x: i32| after.contains(x) <==> (before.contains(x) || x == value) by {
            if after.contains(x) {
                let k = choose|k: int| 0 <= k < after.len() && after[k] == x;
                if k < at {
                    assert(before[k] == x);
                } else if k > at {
                    assert(before[k - 1] == x);
                }
            }
            if before.contains(x) {
                let k = choose|k: int| 0 <= k < before.len() && before[k] == x;
                if k < at {
                    assert(after[k] == x);
                } else {
                    assert(after[k + 1] == x);
                }
            }
            if x == value {
                assert(after[at as int] == x);
            }
        }
    }
}

/// Every element that is below `bound` has all its successors in the list.
#[verifier::opaque]
spec fn closed_below(sums: Seq<i32>, extents: Seq<i32>, limit: int, bound: int) -> bool {
    forall|x: i32, j: int|
        #![trigger sums.contains(x), extents[j]]
        sums.contains(x) && x < bound && 0 <= j < extents.len() && extents[j] > 0 && x + extents[j] < limit
            ==> sums.contains((x + extents[j]) as i32)
}

/// A list with nothing below `bound` is closed below it.
proof fn lemma_closed_start(sums: Seq<i32>, extents: Seq<i32>, limit: int, bound: int)
    requires
        forall|x: i32| sums.contains(x) ==> x >= bound,
    ensures
        closed_below(sums, extents, limit, bound),
{
    reveal(closed_below);
}

/// Adding a value that is not below `bound` keeps the list closed below it.
proof fn lemma_closed_insert(
    before: Seq<i32>,
    after: Seq<i32>,
    extents: Seq<i32>,
    limit: int,
    bound: int,
    value: i32,
)
    requires
        closed_below(before, extents, limit, bound),
        forall|x: i32| after.contains(x) <==> (before.contains(x) || x == value),
        value >= bound,
    ensures
        closed_below(after, extents, limit, bound),
{
    reveal(closed_below);
    assert forall|x: i32, j: int|
        #![trigger after.contains(x), extents[j]]
        after.contains(x) && x < bound && 0 <= j < extents.len() && extents[j] > 0 && x + extents[j]
            < limit implies after.contains((x + extents[j]) as i32) by {
        assert(before.contains(x));
        assert(before.contains((x + extents[j]) as i32));
    }
}

/// Once all successors of `base` are in the list, the list is closed below
/// any bound that only `base` and smaller elements stay under.
proof fn lemma_closed_advance(sums: Seq<i32>, extents: Seq<i32>, limit: int, base: i32, bound: int)
    requires
        closed_below(sums, extents, limit, base as int),
        forall|j: int|
            0 <= j < extents.len() && extents[j] > 0 && base + extents[j] < limit ==> sums.contains(
                (base + #[trigger] extents[j]) as i32,
            ),
        forall|x: i32| sums.contains(x) && x < bound ==> x <= base,
    ensures
        closed_below(sums, extents, limit, bound),
{
    reveal(closed_below);
    assert forall|x: i32, j: int|
        #![trigger sums.contains(x), extents[j]]
        sums.contains(x) && x < bound && 0 <= j < extents.len() && extents[j] > 0 && x + extents[j]
            < limit implies sums.contains((x + extents[j]) as i32) by {
        if x < base {
        } else {
            assert(x == base);
        }
    }
}

/// A list that holds the start and all successors of its elements holds
/// every offset.
proof fn lemma_closed_holds_all(sums: Seq<i32>, start: i32, extents: Seq<i32>, limit: i32, v: int)
    requires
        sums.contains(start),
        closed_below(sums, extents, limit as int, limit as int),
        is_offset(start as int, extents, limit as int, v),
    ensures
        sums.contains(v as i32),
    decreases v - start,
{
    if v != start {
        let j = choose|j: int|
            0 <= j < extents.len() && 0 < #[trigger] extents[j] <= v - start && is_sum_of(
                extents,
                v - start - extents[j],
            );
        let u = (v - extents[j]) as i32;
        lemma_closed_holds_all(sums, start, extents, limit, u as int);
        reveal(closed_below);
        assert(sums.contains(u) && 0 <= j < extents.len());
        assert(sums.contains((u + extents[j]) as i32));
    }
}

/// Every element of the list is an offset.
#[verifier::opaque]
spec fn all_offsets(sums: Seq<i32>, start: int, extents: Seq<i32>, limit: int) -> bool {
    forall|v: i32| sums.contains(v) ==> is_offset(start, extents, limit, v as int)
}

/// What is in a list of offsets is an offset.
proof fn lemma_offset_in_list(sums: Seq<i32>, start: int, extents: Seq<i32>, limit: int, k: int)
    requires
        all_offsets(sums, start, extents, limit),
        0 <= k < sums.len(),
    ensures
        is_offset(start, extents, limit, sums[k] as int),
{
    reveal(all_offsets);
    assert(sums.contains(sums[k]));
}

/// A list of offsets with one more offset is a list of offsets.
proof fn lemma_offsets_insert(
    before: Seq<i32>,
    after: Seq<i32>,
    start: int,
    extents: Seq<i32>,
    limit: int,
    value: i32,
)
    requires
        all_offsets(before, start, extents, limit),
        is_offset(start, extents, limit, value as int),
        forall|x: i32| #![trigger after.contains(x)] after.contains(x) ==> (before.contains(x) || x == value),
    ensures
        all_offsets(after, start, extents, limit),
{
    reveal(all_offsets);
}

/// The element number `i`, or the limit where the list is shorter.
spec fn next_bound(sums: Seq<i32>, limit: int, i: int) -> int {
    if 0 <= i < sums.len() {
        sums[i] as int
    } else {
        limit
    }
}

/// Once the element number `i` has all its successors in an increasing
/// list, the list is closed below the next element, or below the limit
/// where there is none.
proof fn lemma_closed_next(sums: Seq<i32>, start: int, extents: Seq<i32>, limit: int, i: int)
    requires
        0 <= i < sums.len(),
        strictly_increasing(sums),
        all_offsets(sums, start, extents, limit),
        closed_below(sums, extents, limit, sums[i] as int),
        forall|j: int|
            0 <= j < extents.len() && extents[j] > 0 && sums[i] + extents[j] < limit ==> sums.contains(
                (sums[i] + #[trigger] extents[j]) as i32,
            ),
    ensures
        closed_below(sums, extents, limit, next_bound(sums, limit, i + 1)),
{
    let bound = next_bound(sums, limit, i + 1);
    assert forall|x: i32| sums.contains(x) && x < bound implies x <= sums[i] by {
        let at = choose|at: int| 0 <= at < sums.len() && sums[at] == x;
        if at > i {
            assert(sums[i + 1] <= sums[at]);
        }
    }
    lemma_closed_advance(sums, extents, limit, sums[i], bound);
}

/// Puts every successor of the element number `i` into the list.
fn add_successors(sums: &mut Vec<i32>, i: usize, summands: &[i32], maximum: i32, Ghost(start): Ghost<int>)
    requires
        i < old(sums)@.len(),
        strictly_increasing(old(sums)@),
        all_offsets(old(sums)@, start, summands@, maximum as int),
        closed_below(old(sums)@, summands@, maximum as int, old(sums)@[i as int] as int),
    ensures
        final(sums)@.len() >= old(sums)@.len(),
        final(sums)@[i as int] == old(sums)@[i as int],
        strictly_increasing(final(sums)@),
        all_offsets(final(sums)@, start, summands@, maximum as int),
        closed_below(final(sums)@, summands@, maximum as int, next_bound(final(sums)@, maximum as int, i + 1)),
        forall|x: i32| old(sums)@.contains(x) ==> #[trigger] final(sums)@.contains(x),
{
    let base = sums[i];
    proof {
        lemma_offset_in_list(sums@, start, summands@, maximum as int, i as int);
    }
    let mut j: usize = 0;
    while j < summands.len()
        invariant
            0 <= j <= summands.len(),
            i < sums@.len(),
            sums@.len() >= old(sums)@.len(),
            sums@[i as int] == base,
            base == old(sums)@[i as int],
            is_offset(start, summands@, maximum as int, base as int),
            strictly_increasing(sums@),
            all_offsets(sums@, start, summands@, maximum as int),
            closed_below(sums@, summands@, maximum as int, base as int),
            forall|x: i32| old(sums)@.contains(x) ==> #[trigger] sums@.contains(x),
            forall|k: int|
                0 <= k < j && summands@[k] > 0 && base + summands@[k] < maximum ==> sums@.contains(
                    (base + #[trigger] summands@[k]) as i32,
                ),
        decreases summands.len() - j,
    {
        let extent = summands[j];
        if extent > 0 {
            let next: i64 = base as i64 + extent as i64;
            if next < maximum as i64 {
                let ghost before = sums@;
                let value: i32 = next as i32;
                insert_sorted(sums, value);
                proof {
                    lemma_sum_step(summands@, base - start, j as int);
                    lemma_closed_insert(before, sums@, summands@, maximum as int, base as int, value);
                    lemma_offsets_insert(before, sums@, start, summands@, maximum as int, value);
                    assert(before[i as int] < value);
                    assert forall|k: int|
                        0 <= k < j + 1 && summands@[k] > 0 && base + summands@[k]
                            < maximum implies sums@.contains((base + #[trigger] summands@[k]) as i32) by {
                        if k < j {
                            assert(before.contains((base + summands@[k]) as i32));
                        }
                    }
                }
            }
        }
        j += 1;
    }
    proof {
        lemma_closed_next(sums@, start, summands@, maximum as int, i as int);
    }
}

/// The offsets that are reached from `current_sum` by adding positive
/// entries of `summands` any number of times and that stay below
/// `maximum`, in increasing order and without repetition. Entries of
/// `summands` that are not positive add nothing.
pub fn collect_positions(current_sum: i32, summands: &[i32], maximum: i32) -> (sums: Vec<i32>)
    ensures
        sums@ == offsets(current_sum as int, summands@, maximum as int),
        strictly_increasing(sums@),
        forall|v: i32|
            #![trigger sums@.contains(v)]
            sums@.contains(v) <==> is_offset(current_sum as int, summands@, maximum as int, v as int),
{
    let mut sums: Vec<i32> = Vec::new();
    if current_sum >= maximum {
        proof {
            lemma_offsets(current_sum, summands@, maximum);
            lemma_increasing_lists_equal(sums@, offsets(current_sum as int, summands@, maximum as int));
        }
        return sums;
    }
    sums.push(current_sum);
    proof {
        assert(sums@[0] == current_sum);
        assert forall|x: i32| sums@.contains(x) implies x == current_sum by {
            let k = choose|k: int| 0 <= k < sums@.len() && sums@[k] == x;
        }
        lemma_closed_start(sums@, summands@, maximum as int, current_sum as int);
        assert(all_offsets(sums@, current_sum as int, summands@, maximum as int)) by {
            reveal(all_offsets);
        }
    }
    let mut i: usize = 0;
    while i < sums.len()
        invariant
            0 <= i <= sums.len(),
            sums@.contains(current_sum),
            strictly_increasing(sums@),
            all_offsets(sums@, current_sum as int, summands@, maximum as int),
            closed_below(sums@, summands@, maximum as int, next_bound(sums@, maximum as int, i as int)),
        decreases maximum - next_bound(sums@, maximum as int, i as int),
    {
        add_successors(&mut sums, i, summands, maximum, Ghost(current_sum as int));
        proof {
            lemma_offset_in_list(sums@, current_sum as int, summands@, maximum as int, i as int);
            if i + 1 < sums@.len() {
                assert(sums@[i as int] < sums@[i + 1]);
                lemma_offset_in_list(sums@, current_sum as int, summands@, maximum as int, i + 1);
            }
        }
        i += 1;
    }
    proof {
        assert forall|v: i32| sums@.contains(v) implies is_offset(
            current_sum as int,
            summands@,
            maximum as int,
            v as int,
        ) by {
            reveal(all_offsets);
        }
        assert forall|v: i32|
            is_offset(current_sum as int, summands@, maximum as int, v as int) implies sums@.contains(
            v,
        ) by {
            lemma_closed_holds_all(sums@, current_sum, summands@, maximum, v as int);
        }
        lemma_offsets(current_sum, summands@, maximum);
        lemma_increasing_lists_equal(sums@, offsets(current_sum as int, summands@, maximum as int));
    }
    sums
}

/// The views of the inner lists of a list of lists.
pub open spec fn lists<T>(outer: Seq<Vec<T>>) -> Seq<Seq<T>> {
    Seq::new(outer.len(), |i: int| outer[i]@)
}

/// The widths of the boxes, in their order.
pub open spec fn widths(boxes: Seq<Box>) -> Seq<i32> {
    Seq::new(boxes.len(), |i: int| boxes[i].size_x)
}

/// The heights of the boxes, in their order.
pub open spec fn heights(boxes: Seq<Box>) -> Seq<i32> {
    Seq::new(boxes.len(), |i: int| boxes[i].size_y)
}

/// The widths of the boxes, in their order.
pub fn x_sizes(boxes: &[Box]) -> (sizes: Vec<i32>)
    ensures
        sizes@ == widths(boxes@),
{
    let mut sizes: Vec<i32> = Vec::new();
    let mut i: usize = 0;
    while i < boxes.len()
        invariant
            0 <= i <= boxes.len(),
            sizes@ == widths(boxes@.take(i as int)),
        decreases boxes.len() - i,
    {
        sizes.push(boxes[i].size_x);
        i += 1;
        assert(sizes@ =~= widths(boxes@.take(i as int)));
    }
    assert(boxes@.take(i as int) =~= boxes@);
    sizes
}

/// The heights of the boxes, in their order.
pub fn y_sizes(boxes: &[Box]) -> (sizes: Vec<i32>)
    ensures
        sizes@ == heights(boxes@),
{
    let mut sizes: Vec<i32> = Vec::new();
    let mut i: usize = 0;
    while i < boxes.len()
        invariant
            0 <= i <= boxes.len(),
            sizes@ == heights(boxes@.take(i as int)),
        decreases boxes.len() - i,
    {
        sizes.push(boxes[i].size_y);
        i += 1;
        assert(sizes@ =~= heights(boxes@.take(i as int)));
    }
    assert(boxes@.take(i as int) =~= boxes@);
    sizes
}

/// `abox` has positive extents and, moved by `p`, lies within `border`.
pub open spec fn fits_at(border: Box, abox: Box, p: Position) -> bool {
    &&& abox.has_area()
    &&& abox.can_translate(p.x as int, p.y as int)
    &&& border.spec_contains(abox.spec_translate(p.x as int, p.y as int))
}

/// The test that `candidate_positions` filters by.
pub open spec fn fits(border: Box, abox: Box) -> spec_fn(Position) -> bool {
    |p: Position| fits_at(border, abox, p)
}

/// The points with the given x coordinate, one for each y coordinate.
pub open spec fn grid_row(x: i32, ys: Seq<i32>) -> Seq<Position> {
    Seq::new(ys.len(), |j: int| Position { x, y: ys[j] })
}

/// All pairs of an x and a y coordinate: the x coordinates one after the
/// other, each with every y coordinate in turn.
pub open spec fn grid(xs: Seq<i32>, ys: Seq<i32>) -> Seq<Position>
    decreases xs.len(),
{
    if xs.len() == 0 {
        Seq::empty()
    } else {
        grid(xs.drop_last(), ys) + grid_row(xs.last(), ys)
    }
}

/// The points of the grid at which `abox` fits into `border`, in the order
/// of the grid.
pub open spec fn candidate_positions(border: Box, abox: Box, xs: Seq<i32>, ys: Seq<i32>) -> Seq<Position> {
    grid(xs, ys).filter(fits(border, abox))
}

/// The candidate positions of each box.
pub open spec fn candidate_space(border: Box, boxes: Seq<Box>, xs: Seq<i32>, ys: Seq<i32>) -> Seq<
    Seq<Position>,
> {
    Seq::new(boxes.len(), |i: int| candidate_positions(border, boxes[i], xs, ys))
}

/// A point is on the grid exactly if both its coordinates are listed.
pub proof fn lemma_grid_contains(xs: Seq<i32>, ys: Seq<i32>, p: Position)
    ensures
        grid(xs, ys).contains(p) <==> (xs.contains(p.x) && ys.contains(p.y)),
    decreases xs.len(),
{
    if xs.len() > 0 {
        let front = grid(xs.drop_last(), ys);
        let back = grid_row(xs.last(), ys);
        let all = grid(xs, ys);
        lemma_grid_contains(xs.drop_last(), ys, p);
        if all.contains(p) {
            let k = choose|k: int| 0 <= k < all.len() && all[k] == p;
            if k < front.len() {
                assert(front[k] == p);
                let m = choose|m: int| 0 <= m < xs.drop_last().len() && xs.drop_last()[m] == p.x;
                assert(xs[m] == p.x);
            } else {
                assert(back[k - front.len()] == p);
                assert(xs[xs.len() - 1] == p.x);
                assert(ys[k - front.len()] == p.y);
            }
        }
        if xs.contains(p.x) && ys.contains(p.y) {
            let m = choose|m: int| 0 <= m < xs.len() && xs[m] == p.x;
            let n = choose|n: int| 0 <= n < ys.len() && ys[n] == p.y;
            if m < xs.len() - 1 {
                assert(xs.drop_last()[m] == p.x);
                assert(front.contains(p));
                let k = choose|k: int| 0 <= k < front.len() && front[k] == p;
                assert(all[k] == p);
            } else {
                assert(back[n] == p);
                assert(all[front.len() + n] == p);
            }
        }
    }
}

/// A point is a candidate position exactly if it is on the grid and the
/// box fits there.
pub proof fn lemma_candidate_positions(border: Box, abox: Box, xs: Seq<i32>, ys: Seq<i32>, p: Position)
    ensures
        candidate_positions(border, abox, xs, ys).contains(p) <==> (xs.contains(p.x) && ys.contains(p.y)
            && fits_at(border, abox, p)),
{
    let all = grid(xs, ys);
    let kept = all.filter(fits(border, abox));
    lemma_grid_contains(xs, ys, p);
    if kept.contains(p) {
        let k = choose|k: int| 0 <= k < kept.len() && kept[k] == p;
        all.lemma_filter_pred(fits(border, abox), k);
        all.lemma_filter_contains_rev(fits(border, abox), p);
    }
    if all.contains(p) && fits_at(border, abox, p) {
        let k = choose|k: int| 0 <= k < all.len() && all[k] == p;
        all.lemma_filter_contains(fits(border, abox), k);
    }
}

/// On a grid of increasing coordinates no point comes twice.
pub proof fn lemma_grid_no_duplicates(xs: Seq<i32>, ys: Seq<i32>)
    requires
        strictly_increasing(xs),
        strictly_increasing(ys),
    ensures
        grid(xs, ys).no_duplicates(),
    decreases xs.len(),
{
    if xs.len() > 0 {
        let front = grid(xs.drop_last(), ys);
        let back = grid_row(xs.last(), ys);
        lemma_grid_no_duplicates(xs.drop_last(), ys);
        assert forall|i: int, j: int| 0 <= i < front.len() && 0 <= j < back.len() implies front[i]
            != back[j] by {
            assert(front.contains(front[i]));
            lemma_grid_contains(xs.drop_last(), ys, front[i]);
            let m = choose|m: int| 0 <= m < xs.drop_last().len() && xs.drop_last()[m] == front[i].x;
            assert(xs[m] < xs.last());
        }
        lemma_no_dup_in_concat(front, back);
    }
}

/// What a test keeps of a list without repetition is without repetition.
proof fn lemma_filter_no_duplicates<T>(s: Seq<T>, test: spec_fn(T) -> bool)
    requires
        s.no_duplicates(),
    ensures
        s.filter(test).no_duplicates(),
    decreases s.len(),
{
    reveal(Seq::filter);
    if s.len() > 0 {
        let front = s.drop_last();
        lemma_filter_no_duplicates(front, test);
        if front.filter(test).contains(s.last()) {
            front.lemma_filter_contains_rev(test, s.last());
            let k = choose|k: int| 0 <= k < front.len() && front[k] == s.last();
            assert(s[k] == s[s.len() - 1]);
        }
    }
}

/// Of increasing coordinates no candidate position comes twice.
pub proof fn lemma_candidate_positions_no_duplicates(border: Box, abox: Box, xs: Seq<i32>, ys: Seq<i32>)
    requires
        strictly_increasing(xs),
        strictly_increasing(ys),
    ensures
        candidate_positions(border, abox, xs, ys).no_duplicates(),
{
    lemma_grid_no_duplicates(xs, ys);
    lemma_filter_no_duplicates(grid(xs, ys), fits(border, abox));
}

/// The points of the grid at which `abox` fits into `border`: the x
/// coordinates one after the other, each with every y coordinate in turn.
/// A box without positive extents fits nowhere.
pub fn box_positions(border: &Box, abox: &Box, x_positions: &[i32], y_positions: &[i32]) -> (positions: Vec<
    Position,
>)
    ensures
        positions@ == candidate_positions(*border, *abox, x_positions@, y_positions@),
{
    let mut positions: Vec<Position> = Vec::new();
    let ghost test = fits(*border, *abox);
    let mut i: usize = 0;
    while i < x_positions.len()
        invariant
            0 <= i <= x_positions.len(),
            test == fits(*border, *abox),
            positions@ == grid(x_positions@.take(i as int), y_positions@).filter(test),
        decreases x_positions.len() - i,
    {
        let x = x_positions[i];
        let ghost front = grid(x_positions@.take(i as int), y_positions@);
        let mut j: usize = 0;
        assert(front + grid_row(x, y_positions@.take(0)) =~= front);
        while j < y_positions.len()
            invariant
                0 <= j <= y_positions.len(),
                0 <= i < x_positions.len(),
                x == x_positions@[i as int],
                test == fits(*border, *abox),
                front == grid(x_positions@.take(i as int), y_positions@),
                positions@ == (front + grid_row(x, y_positions@.take(j as int))).filter(test),
            decreases y_positions.len() - j,
        {
            let y = y_positions[j];
            let ghost so_far = front + grid_row(x, y_positions@.take(j as int));
            let ghost p = Position { x, y };
            proof {
                assert(front + grid_row(x, y_positions@.take(j + 1)) =~= so_far.push(p));
                so_far.lemma_filter_push(p, test);
                assert(test(p) == fits_at(*border, *abox, p));
            }
            if abox.size_x > 0 && abox.size_y > 0 {
                if let Some(newbox) = abox.checked_translate(x, y) {
                    if border.contains(&newbox) {
                        positions.push(Position::new(x, y));
                    }
                }
            }
            j += 1;
        }
        i += 1;
        proof {
            assert(y_positions@.take(j as int) =~= y_positions@);
            let upto = x_positions@.take(i as int);
            assert(upto.drop_last() =~= x_positions@.take(i - 1));
            assert(upto.last() == x);
        }
    }
    assert(x_positions@.take(i as int) =~= x_positions@);
    positions
}

/// The candidate positions of each box, in the order of the boxes.
pub fn solution_space(border: &Box, boxes: &[Box], x_positions: &[i32], y_positions: &[i32]) -> (space: Vec<
    Vec<Position>,
>)
    ensures
        lists(space@) == candidate_space(*border, boxes@, x_positions@, y_positions@),
{
    let mut space: Vec<Vec<Position>> = Vec::new();
    let mut i: usize = 0;
    while i < boxes.len()
        invariant
            0 <= i <= boxes.len(),
            space@.len() == i,
            lists(space@) == candidate_space(*border, boxes@.take(i as int), x_positions@, y_positions@),
        decreases boxes.len() - i,
    {
        let ghost before = space@;
        let box_positions = box_positions(border, &boxes[i], x_positions, y_positions);
        space.push(box_positions);
        i += 1;
        proof {
            let after = candidate_space(*border, boxes@.take(i as int), x_positions@, y_positions@);
            assert forall|k: int| 0 <= k < after.len() implies lists(space@)[k] == after[k] by {
                if k < i - 1 {
                    assert(lists(space@)[k] == lists(before)[k]);
                    assert(boxes@.take(i - 1)[k] == boxes@.take(i as int)[k]);
                    assert(lists(before)[k] == candidate_space(
                        *border,
                        boxes@.take(i - 1),
                        x_positions@,
                        y_positions@,
                    )[k]);
                }
            }
            assert(lists(space@) =~= after);
        }
    }
    assert(boxes@.take(i as int) =~= boxes@);
    space
}

} // verus!
