//! The exhaustive search for placements.
//!
//! The boxes are placed one after the other, in their order. Each box is
//! tried at every one of its candidate positions, in their order, and a
//! position is given up as soon as the box would intersect one that is
//! placed already. What is found is listed in the order of the search.

use crate::candidates::{
    candidate_space, collect_positions, heights, is_offset, lemma_candidate_positions,
    lemma_candidate_positions_no_duplicates, lemma_offsets, lists, offsets, solution_space, widths, x_sizes,
    y_sizes,
};
use crate::geometry::{Box, Position};
use vstd::prelude::*;
use vstd::seq_lib::lemma_no_dup_in_concat;
use vstd::slice::slice_subrange;

verus! {

/// `abox` moved to the position `p`.
pub open spec fn place(abox: Box, p: Position) -> Box {
    abox.spec_translate(p.x as int, p.y as int)
}

/// One of the boxes in `placed` intersects `abox`.
pub open spec fn collides(placed: Seq<Box>, abox: Box) -> bool {
    exists|k: int| 0 <= k < placed.len() && (#[trigger] placed[k]).spec_intersects(abox)
}

/// Each of the boxes can be moved to each of its candidate positions.
pub open spec fn placeable(boxes: Seq<Box>, space: Seq<Seq<Position>>) -> bool {
    &&& boxes.len() <= space.len()
    &&& forall|i: int, c: int|
        #![trigger space[i][c]]
        0 <= i < boxes.len() && 0 <= c < space[i].len() ==> boxes[i].can_translate(
            space[i][c].x as int,
            space[i][c].y as int,
        )
}

/// The complete placements that extend `placed` by `boxes`, in the order
/// of the search.
pub open spec fn solutions(boxes: Seq<Box>, space: Seq<Seq<Position>>, placed: Seq<Box>) -> Seq<Seq<Box>>
    decreases boxes.len(), space[0].len() + 1,
{
    if boxes.len() == 0 {
        seq![placed]
    } else {
        branches(boxes, space, placed, space[0].len())
    }
}

/// The complete placements that extend `placed` by `boxes` and have the
/// first box at one of its first `n` candidate positions.
pub open spec fn branches(boxes: Seq<Box>, space: Seq<Seq<Position>>, placed: Seq<Box>, n: nat) -> Seq<
    Seq<Box>,
>
    decreases boxes.len(), n,
{
    if n == 0 || boxes.len() == 0 {
        Seq::empty()
    } else {
        branches(boxes, space, placed, (n - 1) as nat) + branch(boxes, space, placed, n - 1)
    }
}

/// The complete placements that extend `placed` by `boxes` and have the
/// first box at its candidate position number `c`.
pub open spec fn branch(boxes: Seq<Box>, space: Seq<Seq<Position>>, placed: Seq<Box>, c: int) -> Seq<
    Seq<Box>,
>
    decreases boxes.len(), 0int,
{
    if boxes.len() == 0 {
        Seq::empty()
    } else {
        let newbox = place(boxes[0], space[0][c]);
        if collides(placed, newbox) {
            Seq::empty()
        } else {
            solutions(boxes.drop_first(), space.drop_first(), placed.push(newbox))
        }
    }
}

/// Whether each of the boxes can be moved to each of its candidate
/// positions.
pub fn can_place(boxes: &[Box], solution_space: &[Vec<Position>]) -> (fine: bool)
    ensures
        fine == placeable(boxes@, lists(solution_space@)),
{
    if boxes.len() > solution_space.len() {
        return false;
    }
    let ghost space = lists(solution_space@);
    let mut i: usize = 0;
    while i < boxes.len()
        invariant
            0 <= i <= boxes.len(),
            boxes.len() <= solution_space.len(),
            space == lists(solution_space@),
            forall|k: int, c: int|
                #![trigger space[k][c]]
                0 <= k < i && 0 <= c < space[k].len() ==> boxes@[k].can_translate(
                    space[k][c].x as int,
                    space[k][c].y as int,
                ),
        decreases boxes.len() - i,
    {
        let candidates = &solution_space[i];
        assert(space[i as int] == candidates@);
        let mut c: usize = 0;
        while c < candidates.len()
            invariant
                0 <= c <= candidates.len(),
                0 <= i < boxes.len(),
                boxes.len() <= solution_space.len(),
                space == lists(solution_space@),
                space[i as int] == candidates@,
                forall|m: int|
                    0 <= m < c ==> boxes@[i as int].can_translate(
                        (#[trigger] candidates@[m]).x as int,
                        candidates@[m].y as int,
                    ),
            decreases candidates.len() - c,
        {
            if boxes[i].checked_translate(candidates[c].x, candidates[c].y).is_none() {
                assert(space[i as int][c as int] == candidates@[c as int]);
                return false;
            }
            c += 1;
        }
        i += 1;
    }
    true
}

/// Whether one of the boxes in `placed` intersects `abox`.
fn hits_any(placed: &Vec<Box>, abox: &Box) -> (collision: bool)
    ensures
        collision == collides(placed@, *abox),
{
    let mut k: usize = 0;
    while k < placed.len()
        invariant
            0 <= k <= placed.len(),
            forall|m: int| 0 <= m < k ==> !(#[trigger] placed@[m]).spec_intersects(*abox),
        decreases placed.len() - k,
    {
        if placed[k].intersects(abox) {
            return true;
        }
        k += 1;
    }
    false
}

/// A copy of `placed` with `abox` at its end.
fn extended(placed: &Vec<Box>, abox: Box) -> (longer: Vec<Box>)
    ensures
        longer@ == placed@.push(abox),
{
    let mut longer: Vec<Box> = Vec::new();
    let mut k: usize = 0;
    while k < placed.len()
        invariant
            0 <= k <= placed.len(),
            longer@ == placed@.take(k as int),
        decreases placed.len() - k,
    {
        longer.push(placed[k]);
        k += 1;
        assert(longer@ =~= placed@.take(k as int));
    }
    assert(placed@.take(k as int) =~= placed@);
    longer.push(abox);
    longer
}

/// Every way to extend `solution` by all of `boxes`, each at one of its
/// candidate positions, such that no box intersects one placed before it.
///
/// `solution_space` holds the candidate positions of each box. The
/// placements come in the order of a depth-first search that takes the
/// boxes in their order, and for each the positions in theirs.
pub fn collect_solutions(boxes: &[Box], solution_space: &[Vec<Position>], solution: Vec<Box>) -> (found: Vec<
    Vec<Box>,
>)
    requires
        placeable(boxes@, lists(solution_space@)),
    ensures
        lists(found@) == solutions(boxes@, lists(solution_space@), solution@),
    decreases boxes@.len(),
{
    let mut found: Vec<Vec<Box>> = Vec::new();
    let ghost space = lists(solution_space@);
    if boxes.len() == 0 {
        found.push(solution);
        assert(lists(found@) =~= seq![solution@]);
        return found;
    }
    let candidates = &solution_space[0];
    let rest_boxes = slice_subrange(boxes, 1, boxes.len());
    let rest_space = slice_subrange(solution_space, 1, solution_space.len());
    proof {
        assert(lists(rest_space@) =~= space.drop_first());
        assert(rest_boxes@ =~= boxes@.drop_first());
        assert forall|i: int, c: int|
            #![trigger space.drop_first()[i][c]]
            0 <= i < rest_boxes@.len() && 0 <= c < space.drop_first()[i].len() implies rest_boxes@[i].can_translate(
            space.drop_first()[i][c].x as int,
            space.drop_first()[i][c].y as int,
        ) by {
            assert(space.drop_first()[i][c] == space[i + 1][c]);
        }
        assert(candidates@ == space[0]);
    }
    let mut n: usize = 0;
    while n < candidates.len()
        invariant
            0 <= n <= candidates.len(),
            boxes@.len() > 0,
            space == lists(solution_space@),
            candidates@ == space[0],
            rest_boxes@ == boxes@.drop_first(),
            lists(rest_space@) == space.drop_first(),
            placeable(boxes@, space),
            placeable(rest_boxes@, lists(rest_space@)),
            lists(found@) == branches(boxes@, space, solution@, n as nat),
        decreases candidates.len() - n,
    {
        assert(space[0][n as int] == candidates@[n as int]);
        let newbox = boxes[0].translate2(&candidates[n]);
        let ghost before = found@;
        if !hits_any(&solution, &newbox) {
            let tmp_solution = extended(&solution, newbox);
            let mut tmp_solutions = collect_solutions(rest_boxes, rest_space, tmp_solution);
            let ghost added = tmp_solutions@;
            found.append(&mut tmp_solutions);
            assert(lists(found@) =~= lists(before) + lists(added));
        }
        n += 1;
        assert(lists(found@) =~= lists(before) + branch(boxes@, space, solution@, n - 1));
    }
    found
}

/// `placed_box` is `abox` moved to one of the candidate positions.
pub open spec fn is_choice(abox: Box, candidates: Seq<Position>, placed_box: Box) -> bool {
    exists|c: int| 0 <= c < candidates.len() && placed_box == place(abox, #[trigger] candidates[c])
}

/// `s` extends `placed` by all of `boxes`, each moved to one of its
/// candidate positions, and none of the added boxes intersects a box that
/// comes before it in `s`.
pub open spec fn is_packing(boxes: Seq<Box>, space: Seq<Seq<Position>>, placed: Seq<Box>, s: Seq<Box>) -> bool {
    &&& s.len() == placed.len() + boxes.len()
    &&& forall|k: int| 0 <= k < placed.len() ==> #[trigger] s[k] == placed[k]
    &&& forall|i: int|
        0 <= i < boxes.len() ==> is_choice(#[trigger] boxes[i], space[i], s[placed.len() + i])
    &&& forall|a: int, b: int|
        0 <= a < b < s.len() && placed.len() <= b ==> !(#[trigger] s[a]).spec_intersects(#[trigger] s[b])
}

/// An element of a concatenation is an element of one of its parts.
proof fn lemma_concat_contains<T>(a: Seq<T>, b: Seq<T>, x: T)
    ensures
        (a + b).contains(x) <==> (a.contains(x) || b.contains(x)),
{
    let all = a + b;
    if all.contains(x) {
        let k = choose|k: int| 0 <= k < all.len() && all[k] == x;
        if k < a.len() {
            assert(a[k] == x);
        } else {
            assert(b[k - a.len()] == x);
        }
    }
    if a.contains(x) {
        let k = choose|k: int| 0 <= k < a.len() && a[k] == x;
        assert(all[k] == x);
    }
    if b.contains(x) {
        let k = choose|k: int| 0 <= k < b.len() && b[k] == x;
        assert(all[a.len() + k] == x);
    }
}

/// Everything that the search lists is a packing.
pub proof fn lemma_solutions_sound(boxes: Seq<Box>, space: Seq<Seq<Position>>, placed: Seq<Box>, s: Seq<Box>)
    requires
        boxes.len() <= space.len(),
        solutions(boxes, space, placed).contains(s),
    ensures
        is_packing(boxes, space, placed, s),
    decreases boxes.len(), space[0].len() + 1,
{
    if boxes.len() == 0 {
        assert(seq![placed][0] == placed);
    } else {
        lemma_branches_sound(boxes, space, placed, space[0].len(), s);
    }
}

/// Everything that the first `n` candidates of the first box lead to is
/// a packing.
proof fn lemma_branches_sound(
    boxes: Seq<Box>,
    space: Seq<Seq<Position>>,
    placed: Seq<Box>,
    n: nat,
    s: Seq<Box>,
)
    requires
        boxes.len() <= space.len(),
        n <= space[0].len(),
        branches(boxes, space, placed, n).contains(s),
    ensures
        is_packing(boxes, space, placed, s),
    decreases boxes.len(), n,
{
    if n > 0 && boxes.len() > 0 {
        let before = branches(boxes, space, placed, (n - 1) as nat);
        let last = branch(boxes, space, placed, n - 1);
        lemma_concat_contains(before, last, s);
        if before.contains(s) {
            lemma_branches_sound(boxes, space, placed, (n - 1) as nat, s);
        } else {
            lemma_branch_sound(boxes, space, placed, n - 1, s);
        }
    }
}

/// Everything that one candidate of the first box leads to is a packing.
proof fn lemma_branch_sound(boxes: Seq<Box>, space: Seq<Seq<Position>>, placed: Seq<Box>, c: int, s: Seq<Box>)
    requires
        boxes.len() <= space.len(),
        0 <= c < space[0].len(),
        branch(boxes, space, placed, c).contains(s),
    ensures
        is_packing(boxes, space, placed, s),
    decreases boxes.len(), 0int,
{
    if boxes.len() > 0 {
        let newbox = place(boxes[0], space[0][c]);
        let rest = boxes.drop_first();
        let rest_space = space.drop_first();
        let longer = placed.push(newbox);
        lemma_solutions_sound(rest, rest_space, longer, s);
        assert forall|k: int| 0 <= k < placed.len() implies #[trigger] s[k] == placed[k] by {
            assert(s[k] == longer[k]);
        }
        assert(s[placed.len() as int] == longer[placed.len() as int]);
        assert forall|i: int| 0 <= i < boxes.len() implies is_choice(
            #[trigger] boxes[i],
            space[i],
            s[placed.len() + i],
        ) by {
            if i == 0 {
                assert(s[placed.len() as int] == place(boxes[0], space[0][c]));
            } else {
                assert(rest[i - 1] == boxes[i]);
                assert(rest_space[i - 1] == space[i]);
                assert(is_choice(rest[i - 1], rest_space[i - 1], s[longer.len() + (i - 1)]));
            }
        }
        assert forall|a: int, b: int| 0 <= a < b < s.len() && placed.len() <= b implies !(#[trigger] s[a]).spec_intersects(
            #[trigger] s[b],
        ) by {
            if b == placed.len() {
                assert(s[a] == longer[a]);
                assert(placed[a] == s[a]);
                if s[a].spec_intersects(s[b]) {
                    assert(placed[a].spec_intersects(newbox));
                }
            }
        }
    }
}

/// A placement that the first `n` candidates of the first box lead to is
/// also among those of more candidates.
proof fn lemma_branches_hold(
    boxes: Seq<Box>,
    space: Seq<Seq<Position>>,
    placed: Seq<Box>,
    n: nat,
    c: int,
    s: Seq<Box>,
)
    requires
        boxes.len() > 0,
        0 <= c < n,
        branch(boxes, space, placed, c).contains(s),
    ensures
        branches(boxes, space, placed, n).contains(s),
    decreases n,
{
    let before = branches(boxes, space, placed, (n - 1) as nat);
    let last = branch(boxes, space, placed, n - 1);
    lemma_concat_contains(before, last, s);
    if c < n - 1 {
        lemma_branches_hold(boxes, space, placed, (n - 1) as nat, c, s);
    }
}

/// The search lists every packing.
pub proof fn lemma_solutions_complete(
    boxes: Seq<Box>,
    space: Seq<Seq<Position>>,
    placed: Seq<Box>,
    s: Seq<Box>,
)
    requires
        boxes.len() <= space.len(),
        is_packing(boxes, space, placed, s),
    ensures
        solutions(boxes, space, placed).contains(s),
    decreases boxes.len(),
{
    if boxes.len() == 0 {
        assert(s =~= placed);
        assert(seq![placed][0] == s);
    } else {
        let at = placed.len() as int;
        assert(is_choice(boxes[0], space[0], s[at + 0]));
        let c = choose|c: int| 0 <= c < space[0].len() && s[at] == place(boxes[0], #[trigger] space[0][c]);
        let newbox = place(boxes[0], space[0][c]);
        let rest = boxes.drop_first();
        let rest_space = space.drop_first();
        let longer = placed.push(newbox);
        if collides(placed, newbox) {
            let k = choose|k: int| 0 <= k < placed.len() && (#[trigger] placed[k]).spec_intersects(newbox);
            assert(s[k] == placed[k]);
            assert(!s[k].spec_intersects(s[at]));
        }
        assert forall|k: int| 0 <= k < longer.len() implies #[trigger] s[k] == longer[k] by {
            if k < at {
                assert(s[k] == placed[k]);
            }
        }
        assert forall|i: int| 0 <= i < rest.len() implies is_choice(
            #[trigger] rest[i],
            rest_space[i],
            s[longer.len() + i],
        ) by {
            assert(rest[i] == boxes[i + 1]);
            assert(rest_space[i] == space[i + 1]);
            assert(is_choice(boxes[i + 1], space[i + 1], s[placed.len() + (i + 1)]));
        }
        lemma_solutions_complete(rest, rest_space, longer, s);
        lemma_branches_hold(boxes, space, placed, space[0].len(), c, s);
    }
}

/// The search gives nothing as soon as one box has no candidate position.
pub proof fn lemma_empty_candidates_no_solution(
    boxes: Seq<Box>,
    space: Seq<Seq<Position>>,
    placed: Seq<Box>,
    i: int,
)
    requires
        boxes.len() <= space.len(),
        0 <= i < boxes.len(),
        space[i].len() == 0,
    ensures
        solutions(boxes, space, placed).len() == 0,
{
    let all = solutions(boxes, space, placed);
    if all.len() > 0 {
        assert(all.contains(all[0]));
        lemma_solutions_sound(boxes, space, placed, all[0]);
        assert(is_choice(boxes[i], space[i], all[0][placed.len() + i]));
    }
}

/// No box has a candidate position twice.
pub open spec fn distinct_candidates(boxes: Seq<Box>, space: Seq<Seq<Position>>) -> bool {
    forall|i: int| 0 <= i < boxes.len() ==> (#[trigger] space[i]).no_duplicates()
}

/// What one candidate of the first box leads to has the first box there.
proof fn lemma_branch_first(boxes: Seq<Box>, space: Seq<Seq<Position>>, placed: Seq<Box>, c: int, s: Seq<Box>)
    requires
        0 < boxes.len() <= space.len(),
        branch(boxes, space, placed, c).contains(s),
    ensures
        s.len() > placed.len(),
        s[placed.len() as int] == place(boxes[0], space[0][c]),
{
    let longer = placed.push(place(boxes[0], space[0][c]));
    lemma_solutions_sound(boxes.drop_first(), space.drop_first(), longer, s);
    assert(s[placed.len() as int] == longer[placed.len() as int]);
}

/// What the first `n` candidates of the first box lead to has the first
/// box at one of them.
proof fn lemma_branches_first(
    boxes: Seq<Box>,
    space: Seq<Seq<Position>>,
    placed: Seq<Box>,
    n: nat,
    s: Seq<Box>,
)
    requires
        0 < boxes.len() <= space.len(),
        branches(boxes, space, placed, n).contains(s),
    ensures
        s.len() > placed.len(),
        exists|c: int| 0 <= c < n && s[placed.len() as int] == place(boxes[0], #[trigger] space[0][c]),
    decreases n,
{
    if n > 0 {
        let before = branches(boxes, space, placed, (n - 1) as nat);
        let last = branch(boxes, space, placed, n - 1);
        lemma_concat_contains(before, last, s);
        if before.contains(s) {
            lemma_branches_first(boxes, space, placed, (n - 1) as nat, s);
            let c = choose|c: int|
                0 <= c < n - 1 && s[placed.len() as int] == place(boxes[0], #[trigger] space[0][c]);
            assert(0 <= c < n && s[placed.len() as int] == place(boxes[0], space[0][c]));
        } else {
            lemma_branch_first(boxes, space, placed, n - 1, s);
            assert(s[placed.len() as int] == place(boxes[0], space[0][n - 1]));
        }
    }
}

/// Where no box has a candidate position twice, the search lists no
/// placement twice.
pub proof fn lemma_solutions_no_duplicates(boxes: Seq<Box>, space: Seq<Seq<Position>>, placed: Seq<Box>)
    requires
        placeable(boxes, space),
        distinct_candidates(boxes, space),
    ensures
        solutions(boxes, space, placed).no_duplicates(),
    decreases boxes.len(), space[0].len() + 1,
{
    if boxes.len() > 0 {
        lemma_branches_no_duplicates(boxes, space, placed, space[0].len());
    }
}

/// Where no box has a candidate position twice, the first `n` candidates
/// of the first box lead to no placement twice.
proof fn lemma_branches_no_duplicates(boxes: Seq<Box>, space: Seq<Seq<Position>>, placed: Seq<Box>, n: nat)
    requires
        placeable(boxes, space),
        distinct_candidates(boxes, space),
        n <= space[0].len(),
    ensures
        branches(boxes, space, placed, n).no_duplicates(),
    decreases boxes.len(), n,
{
    if n > 0 && boxes.len() > 0 {
        let before = branches(boxes, space, placed, (n - 1) as nat);
        let last = branch(boxes, space, placed, n - 1);
        let newbox = place(boxes[0], space[0][n - 1]);
        let rest = boxes.drop_first();
        let rest_space = space.drop_first();
        lemma_branches_no_duplicates(boxes, space, placed, (n - 1) as nat);
        if !collides(placed, newbox) {
            assert forall|i: int, c: int|
                #![trigger rest_space[i][c]]
                0 <= i < rest.len() && 0 <= c < rest_space[i].len() implies rest[i].can_translate(
                rest_space[i][c].x as int,
                rest_space[i][c].y as int,
            ) by {
                assert(rest_space[i][c] == space[i + 1][c]);
            }
            assert forall|i: int| 0 <= i < rest.len() implies (#[trigger] rest_space[i]).no_duplicates() by {
                assert(rest_space[i] == space[i + 1]);
            }
            lemma_solutions_no_duplicates(rest, rest_space, placed.push(newbox));
        }
        assert forall|i: int, j: int| 0 <= i < before.len() && 0 <= j < last.len() implies before[i]
            != last[j] by {
            assert(before.contains(before[i]));
            assert(last.contains(last[j]));
            lemma_branches_first(boxes, space, placed, (n - 1) as nat, before[i]);
            lemma_branch_first(boxes, space, placed, n - 1, last[j]);
            let c = choose|c: int|
                0 <= c < n - 1 && before[i][placed.len() as int] == place(boxes[0], #[trigger] space[0][c]);
            assert(space[0][c] != space[0][n - 1]);
            assert(boxes[0].can_translate(space[0][c].x as int, space[0][c].y as int));
            assert(boxes[0].can_translate(space[0][n - 1].x as int, space[0][n - 1].y as int));
        }
        lemma_no_dup_in_concat(before, last);
    }
}

/// What the search lists depends on nothing but the boxes, their
/// candidate positions and the boxes placed beforehand: two runs on the
/// same three give the same placements in the same order.
pub proof fn lemma_solutions_deterministic(
    boxes: Seq<Box>,
    space: Seq<Seq<Position>>,
    placed: Seq<Box>,
    first: Vec<Vec<Box>>,
    second: Vec<Vec<Box>>,
)
    requires
        lists(first@) == solutions(boxes, space, placed),
        lists(second@) == solutions(boxes, space, placed),
    ensures
        first@.len() == second@.len(),
        forall|i: int| 0 <= i < first@.len() ==> (#[trigger] first@[i])@ == second@[i]@,
{
    assert(lists(first@).len() == first@.len());
    assert(lists(second@).len() == second@.len());
    assert forall|i: int| 0 <= i < first@.len() implies (#[trigger] first@[i])@ == second@[i]@ by {
        assert(lists(first@)[i] == lists(second@)[i]);
    }
}

/// The offsets along the x axis at which a box may start: the sums of
/// box widths below the width of the border.
pub open spec fn x_offsets(border: Box, boxes: Seq<Box>) -> Seq<i32> {
    offsets(0, widths(boxes), border.size_x as int)
}

/// The offsets along the y axis at which a box may start: the sums of
/// box heights below the height of the border.
pub open spec fn y_offsets(border: Box, boxes: Seq<Box>) -> Seq<i32> {
    offsets(0, heights(boxes), border.size_y as int)
}

/// The candidate positions of each box within the border.
pub open spec fn packing_space(border: Box, boxes: Seq<Box>) -> Seq<Seq<Position>> {
    candidate_space(border, boxes, x_offsets(border, boxes), y_offsets(border, boxes))
}

/// Every placement of all the boxes within the border, in the order of
/// the search.
pub open spec fn packings(border: Box, boxes: Seq<Box>) -> Seq<Seq<Box>> {
    solutions(boxes, packing_space(border, boxes), Seq::empty())
}

/// `s` holds each of the boxes, in their order, moved by offsets of the
/// grid to a place within the border, and no box of `s` intersects one
/// that comes before it.
pub open spec fn is_packing_of(border: Box, boxes: Seq<Box>, s: Seq<Box>) -> bool {
    &&& s.len() == boxes.len()
    &&& forall|i: int|
        0 <= i < boxes.len() ==> {
            &&& (#[trigger] boxes[i]).has_area()
            &&& s[i].size_x == boxes[i].size_x
            &&& s[i].size_y == boxes[i].size_y
            &&& is_offset(0, widths(boxes), border.size_x as int, s[i].x - boxes[i].x)
            &&& is_offset(0, heights(boxes), border.size_y as int, s[i].y - boxes[i].y)
            &&& border.spec_contains(s[i])
        }
    &&& forall|a: int, b: int|
        0 <= a < b < s.len() ==> !(#[trigger] s[a]).spec_intersects(#[trigger] s[b])
}

/// Each box can be moved to each of the positions at which it fits.
pub proof fn lemma_candidate_space_placeable(border: Box, boxes: Seq<Box>, xs: Seq<i32>, ys: Seq<i32>)
    ensures
        placeable(boxes, candidate_space(border, boxes, xs, ys)),
{
    let space = candidate_space(border, boxes, xs, ys);
    assert forall|i: int, c: int|
        #![trigger space[i][c]]
        0 <= i < boxes.len() && 0 <= c < space[i].len() implies boxes[i].can_translate(
        space[i][c].x as int,
        space[i][c].y as int,
    ) by {
        assert(space[i].contains(space[i][c]));
        lemma_candidate_positions(border, boxes[i], xs, ys, space[i][c]);
    }
}

/// Every placement of all the boxes within the border.
///
/// A box may start at any offset that is a sum of box widths, or of box
/// heights, and leaves it within the border. A box without positive
/// extents can be placed nowhere, so that nothing is found.
pub fn solve(border: &Box, boxes: &[Box]) -> (found: Vec<Vec<Box>>)
    ensures
        lists(found@) == packings(*border, boxes@),
{
    let x_sizes = x_sizes(boxes);
    let y_sizes = y_sizes(boxes);
    let x_positions = collect_positions(0, x_sizes.as_slice(), border.size_x);
    let y_positions = collect_positions(0, y_sizes.as_slice(), border.size_y);
    let space = solution_space(border, boxes, x_positions.as_slice(), y_positions.as_slice());
    proof {
        lemma_candidate_space_placeable(*border, boxes@, x_positions@, y_positions@);
    }
    collect_solutions(boxes, space.as_slice(), Vec::new())
}

/// The search finds exactly the packings of the boxes into the border.
pub proof fn lemma_packings(border: Box, boxes: Seq<Box>, s: Seq<Box>)
    ensures
        packings(border, boxes).contains(s) <==> is_packing_of(border, boxes, s),
{
    let xs = x_offsets(border, boxes);
    let ys = y_offsets(border, boxes);
    let space = packing_space(border, boxes);
    let none = Seq::<Box>::empty();
    lemma_offsets(0, widths(boxes), border.size_x);
    lemma_offsets(0, heights(boxes), border.size_y);
    if packings(border, boxes).contains(s) {
        lemma_solutions_sound(boxes, space, none, s);
        assert forall|i: int| 0 <= i < boxes.len() implies {
            &&& (#[trigger] boxes[i]).has_area()
            &&& s[i].size_x == boxes[i].size_x
            &&& s[i].size_y == boxes[i].size_y
            &&& is_offset(0, widths(boxes), border.size_x as int, s[i].x - boxes[i].x)
            &&& is_offset(0, heights(boxes), border.size_y as int, s[i].y - boxes[i].y)
            &&& border.spec_contains(s[i])
        } by {
            assert(is_choice(boxes[i], space[i], s[none.len() + i]));
            let c = choose|c: int| 0 <= c < space[i].len() && s[i] == place(boxes[i], #[trigger] space[i][c]);
            let p = space[i][c];
            assert(space[i].contains(p));
            lemma_candidate_positions(border, boxes[i], xs, ys, p);
            assert(xs.contains(p.x));
            assert(ys.contains(p.y));
        }
    }
    if is_packing_of(border, boxes, s) {
        assert forall|i: int| 0 <= i < boxes.len() implies is_choice(
            #[trigger] boxes[i],
            space[i],
            s[none.len() + i],
        ) by {
            let p = Position { x: (s[i].x - boxes[i].x) as i32, y: (s[i].y - boxes[i].y) as i32 };
            assert(xs.contains(p.x));
            assert(ys.contains(p.y));
            assert(place(boxes[i], p) == s[i]);
            lemma_candidate_positions(border, boxes[i], xs, ys, p);
            let c = choose|c: int| 0 <= c < space[i].len() && space[i][c] == p;
            assert(s[i] == place(boxes[i], space[i][c]));
        }
        lemma_solutions_complete(boxes, space, none, s);
    }
}

/// What is found for a border and its boxes depends on nothing else: two
/// runs on the same border and boxes give the same placements in the same
/// order.
pub proof fn lemma_packings_deterministic(
    border: Box,
    boxes: Seq<Box>,
    first: Vec<Vec<Box>>,
    second: Vec<Vec<Box>>,
)
    requires
        lists(first@) == packings(border, boxes),
        lists(second@) == packings(border, boxes),
    ensures
        first@.len() == second@.len(),
        forall|i: int| 0 <= i < first@.len() ==> (#[trigger] first@[i])@ == second@[i]@,
{
    lemma_solutions_deterministic(boxes, packing_space(border, boxes), Seq::empty(), first, second);
}

/// No placement is found twice.
pub proof fn lemma_packings_no_duplicates(border: Box, boxes: Seq<Box>)
    ensures
        packings(border, boxes).no_duplicates(),
{
    let xs = x_offsets(border, boxes);
    let ys = y_offsets(border, boxes);
    let space = packing_space(border, boxes);
    lemma_offsets(0, widths(boxes), border.size_x);
    lemma_offsets(0, heights(boxes), border.size_y);
    lemma_candidate_space_placeable(border, boxes, xs, ys);
    assert forall|i: int| 0 <= i < boxes.len() implies (#[trigger] space[i]).no_duplicates() by {
        lemma_candidate_positions_no_duplicates(border, boxes[i], xs, ys);
    }
    lemma_solutions_no_duplicates(boxes, space, Seq::empty());
}

/// A box that is wider or higher than the border leaves nothing to find.
pub proof fn lemma_oversized_box_no_packing(border: Box, boxes: Seq<Box>, i: int)
    requires
        0 <= i < boxes.len(),
        boxes[i].size_x > border.size_x || boxes[i].size_y > border.size_y,
    ensures
        packings(border, boxes).len() == 0,
        packing_space(border, boxes)[i].len() == 0,
{
    let all = packings(border, boxes);
    if all.len() > 0 {
        assert(all.contains(all[0]));
        lemma_packings(border, boxes, all[0]);
        assert(boxes[i].has_area());
    }
    let candidates = packing_space(border, boxes)[i];
    if candidates.len() > 0 {
        assert(candidates.contains(candidates[0]));
        lemma_candidate_positions(
            border,
            boxes[i],
            x_offsets(border, boxes),
            y_offsets(border, boxes),
            candidates[0],
        );
    }
}

/// A box without positive extents leaves nothing to find, and neither
/// does a border without positive extents as soon as there is a box.
pub proof fn lemma_degenerate_no_packing(border: Box, boxes: Seq<Box>, i: int)
    requires
        0 <= i < boxes.len(),
        !boxes[i].has_area() || !border.has_area(),
    ensures
        packings(border, boxes).len() == 0,
{
    let all = packings(border, boxes);
    if all.len() > 0 {
        assert(all.contains(all[0]));
        lemma_packings(border, boxes, all[0]);
        assert(boxes[i].has_area());
    }
}

/// Without boxes there is one placement, the empty one.
pub proof fn lemma_no_boxes_one_packing(border: Box)
    ensures
        packings(border, Seq::empty()) == seq![Seq::<Box>::empty()],
{
}

} // verus!
