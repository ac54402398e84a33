use box_packing::candidates::{collect_positions, solution_space, x_sizes, y_sizes};
use box_packing::geometry::{Box, Position};
use box_packing::search::{can_place, collect_solutions, solve};

fn rect(x: i32, y: i32, size_x: i32, size_y: i32) -> Box {
    Box { x, y, size_x, size_y }
}

fn points(pairs: &[(i32, i32)]) -> Vec<Position> {
    pairs.iter().map(|&(x, y)| Position { x, y }).collect()
}

fn two_boxes() -> Vec<Vec<Box>> {
    let big = |x, y| rect(x, y, 20, 20);
    let small = |x, y| rect(x, y, 10, 10);
    vec![
        vec![big(0, 0), small(0, 20)],
        vec![big(0, 0), small(10, 20)],
        vec![big(0, 0), small(20, 0)],
        vec![big(0, 0), small(20, 10)],
        vec![big(0, 0), small(20, 20)],
        vec![big(0, 10), small(0, 0)],
        vec![big(0, 10), small(10, 0)],
        vec![big(0, 10), small(20, 0)],
        vec![big(0, 10), small(20, 10)],
        vec![big(0, 10), small(20, 20)],
        vec![big(10, 0), small(0, 0)],
        vec![big(10, 0), small(0, 10)],
        vec![big(10, 0), small(0, 20)],
        vec![big(10, 0), small(10, 20)],
        vec![big(10, 0), small(20, 20)],
        vec![big(10, 10), small(0, 0)],
        vec![big(10, 10), small(0, 10)],
        vec![big(10, 10), small(0, 20)],
        vec![big(10, 10), small(10, 0)],
        vec![big(10, 10), small(20, 0)],
    ]
}

#[test]
fn two_boxes_are_placed_in_every_way() {
    let border = Box::new(30, 30);
    let boxes = [Box::new(20, 20), Box::new(10, 10)];
    let x_positions = collect_positions(0, &x_sizes(&boxes), border.size_x);
    let y_positions = collect_positions(0, &y_sizes(&boxes), border.size_y);
    assert_eq!(x_positions, vec![0, 10, 20]);
    assert_eq!(y_positions, vec![0, 10, 20]);
    let space = solution_space(&border, &boxes, &x_positions, &y_positions);
    let found = collect_solutions(&boxes, &space, Vec::new());
    assert_eq!(found.len(), 20);
    assert_eq!(found, two_boxes());
    assert_eq!(solve(&border, &boxes), two_boxes());
}

#[test]
fn solutions_keep_inside_and_apart() {
    let border = Box::new(30, 30);
    let boxes = [Box::new(20, 20), Box::new(10, 10)];
    let found = solve(&border, &boxes);
    for solution in found.iter() {
        assert_eq!(solution.len(), boxes.len());
        for (placed, abox) in solution.iter().zip(boxes.iter()) {
            assert_eq!((placed.size_x, placed.size_y), (abox.size_x, abox.size_y));
            assert!(border.contains(placed));
        }
        assert!(!solution[0].intersects(&solution[1]));
    }
    // every pair of positions that keeps the boxes apart is found
    let mut expected = 0;
    for x1 in [0, 10] {
        for y1 in [0, 10] {
            for x2 in [0, 10, 20] {
                for y2 in [0, 10, 20] {
                    let first = boxes[0].translate(x1, y1);
                    let second = boxes[1].translate(x2, y2);
                    if !first.intersects(&second) {
                        expected += 1;
                        assert!(found.contains(&vec![first, second]));
                    }
                }
            }
        }
    }
    assert_eq!(found.len(), expected);
}

#[test]
fn four_boxes_fill_the_border() {
    let border = Box::new(30, 30);
    let boxes = [Box::new(20, 20), Box::new(10, 20), Box::new(30, 5), Box::new(30, 5)];
    let s = |a: (i32, i32), b: (i32, i32), c: (i32, i32), d: (i32, i32)| {
        vec![rect(a.0, a.1, 20, 20), rect(b.0, b.1, 10, 20), rect(c.0, c.1, 30, 5), rect(d.0, d.1, 30, 5)]
    };
    let expected = vec![
        s((0, 0), (20, 0), (0, 20), (0, 25)),
        s((0, 0), (20, 0), (0, 25), (0, 20)),
        s((0, 5), (20, 5), (0, 0), (0, 25)),
        s((0, 5), (20, 5), (0, 25), (0, 0)),
        s((0, 10), (20, 10), (0, 0), (0, 5)),
        s((0, 10), (20, 10), (0, 5), (0, 0)),
        s((10, 0), (0, 0), (0, 20), (0, 25)),
        s((10, 0), (0, 0), (0, 25), (0, 20)),
        s((10, 5), (0, 5), (0, 0), (0, 25)),
        s((10, 5), (0, 5), (0, 25), (0, 0)),
        s((10, 10), (0, 10), (0, 0), (0, 5)),
        s((10, 10), (0, 10), (0, 5), (0, 0)),
    ];
    assert_eq!(solve(&border, &boxes), expected);
}

#[test]
fn two_runs_give_the_same_list() {
    let border = Box::new(30, 30);
    let boxes = [Box::new(20, 20), Box::new(10, 20), Box::new(30, 5), Box::new(30, 5)];
    assert_eq!(solve(&border, &boxes), solve(&border, &boxes));
    let space = vec![points(&[(10, 0), (0, 0)]), points(&[(20, 20), (0, 20), (20, 20)])];
    let two = [Box::new(20, 20), Box::new(10, 10)];
    let first = collect_solutions(&two, &space, Vec::new());
    let second = collect_solutions(&two, &space, Vec::new());
    assert_eq!(first, second);
}

#[test]
fn solutions_follow_the_order_of_the_candidates() {
    let boxes = [Box::new(20, 20), Box::new(10, 10)];
    let space = vec![points(&[(10, 0), (0, 0)]), points(&[(20, 20), (0, 20), (20, 20)])];
    let found = collect_solutions(&boxes, &space, Vec::new());
    assert_eq!(
        found,
        vec![
            vec![rect(10, 0, 20, 20), rect(20, 20, 10, 10)],
            vec![rect(10, 0, 20, 20), rect(0, 20, 10, 10)],
            vec![rect(10, 0, 20, 20), rect(20, 20, 10, 10)],
            vec![rect(0, 0, 20, 20), rect(20, 20, 10, 10)],
            vec![rect(0, 0, 20, 20), rect(0, 20, 10, 10)],
            vec![rect(0, 0, 20, 20), rect(20, 20, 10, 10)],
        ]
    );
}

#[test]
fn a_box_larger_than_the_border_leaves_no_solution() {
    let border = Box::new(30, 30);
    let none = Vec::<Vec<Box>>::new();
    assert_eq!(solve(&border, &[Box::new(31, 10)]), none);
    assert_eq!(solve(&border, &[Box::new(10, 31)]), none);
    assert_eq!(solve(&border, &[Box::new(10, 10), Box::new(40, 10)]), none);
    assert_eq!(solve(&border, &[Box::new(10, 40), Box::new(10, 10)]), none);
}

#[test]
fn an_empty_candidate_list_leaves_no_solution() {
    let boxes = [Box::new(20, 20), Box::new(10, 10)];
    let none = Vec::<Vec<Box>>::new();
    assert_eq!(collect_solutions(&boxes, &[points(&[(0, 0)]), points(&[])], Vec::new()), none);
    assert_eq!(collect_solutions(&boxes, &[points(&[]), points(&[(20, 20)])], Vec::new()), none);
}

#[test]
fn extents_that_are_not_positive_leave_no_solution() {
    let none = Vec::<Vec<Box>>::new();
    assert_eq!(solve(&Box::new(30, 30), &[Box::new(0, 10)]), none);
    assert_eq!(solve(&Box::new(30, 30), &[Box::new(10, 10), Box::new(10, -5)]), none);
    assert_eq!(solve(&Box::new(0, 30), &[Box::new(10, 10)]), none);
    assert_eq!(solve(&Box::new(30, -30), &[Box::new(10, 10)]), none);
}

#[test]
fn boxes_that_cannot_lie_side_by_side_leave_no_solution() {
    assert_eq!(solve(&Box::new(30, 30), &[Box::new(20, 20), Box::new(20, 20)]), Vec::<Vec<Box>>::new());
}

#[test]
fn no_boxes_give_the_empty_solution() {
    assert_eq!(solve(&Box::new(30, 30), &[]), vec![Vec::<Box>::new()]);
    assert_eq!(collect_solutions(&[], &[], Vec::new()), vec![Vec::<Box>::new()]);
    let placed = vec![rect(0, 0, 5, 5)];
    assert_eq!(collect_solutions(&[], &[], placed.clone()), vec![placed]);
}

#[test]
fn boxes_placed_before_are_kept_and_avoided() {
    let placed = vec![rect(0, 0, 20, 20)];
    let boxes = [Box::new(10, 10)];
    let space = [points(&[(0, 0), (10, 10), (20, 0), (0, 20)])];
    assert_eq!(
        collect_solutions(&boxes, &space, placed),
        vec![vec![rect(0, 0, 20, 20), rect(20, 0, 10, 10)], vec![rect(0, 0, 20, 20), rect(0, 20, 10, 10)]]
    );
}

#[test]
fn candidate_lists_beyond_the_boxes_are_not_read() {
    let boxes = [Box::new(10, 10)];
    let space = [points(&[(0, 0)]), points(&[]), points(&[(5, 5)])];
    assert_eq!(collect_solutions(&boxes, &space, Vec::new()), vec![vec![rect(0, 0, 10, 10)]]);
}

#[test]
fn one_box_that_fills_the_border() {
    assert_eq!(solve(&Box::new(30, 30), &[Box::new(30, 30)]), vec![vec![rect(0, 0, 30, 30)]]);
}

#[test]
fn crossing_bars_count_as_apart() {
    let found = solve(&Box::new(30, 30), &[Box::new(30, 10), Box::new(10, 30)]);
    assert!(found.contains(&vec![rect(0, 10, 30, 10), rect(10, 0, 10, 30)]));
}

#[test]
fn can_place_tells_whether_every_move_can_be_stored() {
    let boxes = [Box::new(20, 20), rect(i32::MAX - 10, 0, 10, 10)];
    assert!(can_place(&boxes, &[points(&[(0, 0), (i32::MAX, i32::MIN)]), points(&[(10, 0), (0, i32::MAX)])]));
    assert!(!can_place(&boxes, &[points(&[(0, 0)]), points(&[(10, 0), (11, 0)])]));
    assert!(!can_place(&boxes, &[points(&[(0, 0)])]));
    assert!(can_place(&boxes, &[points(&[]), points(&[]), points(&[(1, 1)])]));
    assert!(can_place(&[], &[]));
}

#[test]
fn candidates_of_the_grid_can_be_placed() {
    let border = rect(i32::MAX - 30, i32::MIN, 30, 30);
    let boxes = [rect(i32::MAX - 30, i32::MIN, 20, 20), rect(i32::MAX - 40, i32::MIN, 10, 10)];
    let x_positions = collect_positions(0, &x_sizes(&boxes), border.size_x);
    let y_positions = collect_positions(0, &y_sizes(&boxes), border.size_y);
    let space = solution_space(&border, &boxes, &x_positions, &y_positions);
    assert_eq!(space[0], points(&[(0, 0), (0, 10), (10, 0), (10, 10)]));
    assert_eq!(space[1], points(&[(10, 0), (10, 10), (10, 20), (20, 0), (20, 10), (20, 20)]));
    assert!(can_place(&boxes, &space));
    assert_eq!(collect_solutions(&boxes, &space, Vec::new()), solve(&border, &boxes));
    assert_eq!(solve(&border, &boxes).len(), 12);
}

#[test]
fn no_solution_is_found_twice() {
    let border = Box::new(30, 30);
    for boxes in [
        vec![Box::new(20, 20), Box::new(10, 10)],
        vec![Box::new(20, 20), Box::new(10, 20), Box::new(30, 5), Box::new(30, 5)],
        vec![Box::new(10, 10), Box::new(10, 10), Box::new(10, 10)],
    ] {
        let found = solve(&border, &boxes);
        assert!(!found.is_empty());
        for (i, first) in found.iter().enumerate() {
            for second in found.iter().skip(i + 1) {
                assert_ne!(first, second);
            }
        }
    }
}
