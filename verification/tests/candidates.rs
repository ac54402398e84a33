use box_packing::candidates::{box_positions, collect_positions, solution_space, x_sizes, y_sizes};
use box_packing::geometry::{Box, Position};

fn points(pairs: &[(i32, i32)]) -> Vec<Position> {
    pairs.iter().map(|&(x, y)| Position { x, y }).collect()
}

#[test]
fn offsets_stay_below_the_border() {
    assert_eq!(collect_positions(0, &[20, 10], 30), vec![0, 10, 20]);
}

#[test]
fn offsets_are_sorted_and_listed_once() {
    assert_eq!(collect_positions(0, &[20, 10, 30, 30], 30), vec![0, 10, 20]);
    assert_eq!(collect_positions(0, &[20, 20, 5, 5], 30), vec![0, 5, 10, 15, 20, 25]);
    assert_eq!(collect_positions(0, &[3, 5], 12), vec![0, 3, 5, 6, 8, 9, 10, 11]);
    assert_eq!(collect_positions(0, &[7, 4], 20), vec![0, 4, 7, 8, 11, 12, 14, 15, 16, 18, 19]);
}

#[test]
fn offsets_start_at_the_current_sum() {
    assert_eq!(collect_positions(10, &[20, 10], 30), vec![10, 20]);
    assert_eq!(collect_positions(-15, &[10], 10), vec![-15, -5, 5]);
    assert_eq!(collect_positions(29, &[20, 10], 30), vec![29]);
}

#[test]
fn no_offsets_from_the_maximum_onwards() {
    assert_eq!(collect_positions(30, &[20, 10], 30), Vec::<i32>::new());
    assert_eq!(collect_positions(31, &[20, 10], 30), Vec::<i32>::new());
    assert_eq!(collect_positions(0, &[20, 10], 0), Vec::<i32>::new());
    assert_eq!(collect_positions(0, &[20, 10], -5), Vec::<i32>::new());
}

#[test]
fn offsets_without_summands() {
    assert_eq!(collect_positions(0, &[], 30), vec![0]);
    assert_eq!(collect_positions(0, &[30], 30), vec![0]);
    assert_eq!(collect_positions(0, &[31], 30), vec![0]);
}

#[test]
fn summands_that_are_not_positive_add_nothing() {
    assert_eq!(collect_positions(0, &[0, 10, -10], 30), vec![0, 10, 20]);
    assert_eq!(collect_positions(0, &[0], 30), vec![0]);
    assert_eq!(collect_positions(5, &[-1, i32::MIN], 30), vec![5]);
}

#[test]
fn offsets_near_the_end_of_the_range() {
    assert_eq!(
        collect_positions(i32::MAX - 3, &[2, i32::MAX], i32::MAX),
        vec![i32::MAX - 3, i32::MAX - 1]
    );
    assert_eq!(collect_positions(i32::MIN, &[i32::MAX], 0), vec![i32::MIN, -1]);
}

#[test]
fn sizes_come_in_the_order_of_the_boxes() {
    let boxes = [Box::new(20, 21), Box::new(10, 22), Box::new(30, 5)];
    assert_eq!(x_sizes(&boxes), vec![20, 10, 30]);
    assert_eq!(y_sizes(&boxes), vec![21, 22, 5]);
    assert_eq!(x_sizes(&[]), Vec::<i32>::new());
    assert_eq!(y_sizes(&[]), Vec::<i32>::new());
}

#[test]
fn box_positions_keep_the_box_inside() {
    let border = Box::new(30, 30);
    assert_eq!(
        box_positions(&border, &Box::new(20, 20), &[0, 10, 20], &[0, 10, 20]),
        points(&[(0, 0), (0, 10), (10, 0), (10, 10)])
    );
    assert_eq!(
        box_positions(&border, &Box::new(10, 10), &[0, 10, 20], &[0, 10, 20]),
        points(&[(0, 0), (0, 10), (0, 20), (10, 0), (10, 10), (10, 20), (20, 0), (20, 10), (20, 20)])
    );
    assert_eq!(
        box_positions(&border, &Box::new(30, 5), &[0, 10, 20], &[0, 5, 10, 15, 20, 25]),
        points(&[(0, 0), (0, 5), (0, 10), (0, 15), (0, 20), (0, 25)])
    );
    assert_eq!(box_positions(&border, &Box::new(30, 30), &[0, 10, 20], &[0, 10, 20]), points(&[(0, 0)]));
}

#[test]
fn box_positions_follow_the_given_order() {
    let border = Box::new(30, 30);
    assert_eq!(
        box_positions(&border, &Box::new(20, 20), &[10, 0, 10], &[10, 0]),
        points(&[(10, 10), (10, 0), (0, 10), (0, 0), (10, 10), (10, 0)])
    );
}

#[test]
fn a_box_larger_than_the_border_has_no_position() {
    let border = Box::new(30, 30);
    let none = Vec::<Position>::new();
    assert_eq!(box_positions(&border, &Box::new(31, 10), &[0, 10, 20], &[0, 10, 20]), none);
    assert_eq!(box_positions(&border, &Box::new(10, 31), &[0, 10, 20], &[0, 10, 20]), none);
}

#[test]
fn a_box_without_area_has_no_position() {
    let border = Box::new(30, 30);
    let none = Vec::<Position>::new();
    assert_eq!(box_positions(&border, &Box::new(0, 10), &[0, 10, 20], &[0, 10, 20]), none);
    assert_eq!(box_positions(&border, &Box::new(10, 0), &[0, 10, 20], &[0, 10, 20]), none);
    assert_eq!(box_positions(&border, &Box::new(-10, 10), &[0, 10, 20], &[0, 10, 20]), none);
    assert_eq!(box_positions(&border, &Box::new(10, -10), &[0, 10, 20], &[0, 10, 20]), none);
}

#[test]
fn box_positions_without_offsets() {
    let border = Box::new(30, 30);
    let none = Vec::<Position>::new();
    assert_eq!(box_positions(&border, &Box::new(10, 10), &[], &[0, 10]), none);
    assert_eq!(box_positions(&border, &Box::new(10, 10), &[0, 10], &[]), none);
}

#[test]
fn box_positions_are_relative_to_the_corner_of_the_box() {
    let border = Box { x: 100, y: 200, size_x: 30, size_y: 30 };
    let abox = Box { x: 95, y: 190, size_x: 20, size_y: 20 };
    assert_eq!(
        box_positions(&border, &abox, &[0, 5, 10, 15, 20], &[0, 10, 20, 30]),
        points(&[(5, 10), (5, 20), (10, 10), (10, 20), (15, 10), (15, 20)])
    );
}

#[test]
fn box_positions_skip_what_cannot_be_stored() {
    let border = Box { x: i32::MAX - 10, y: 0, size_x: 10, size_y: 10 };
    let abox = Box { x: i32::MAX - 10, y: 0, size_x: 5, size_y: 5 };
    assert_eq!(box_positions(&border, &abox, &[0, 5, 10, 20], &[0, 5]), points(&[(0, 0), (0, 5), (5, 0), (5, 5)]));
}

#[test]
fn solution_space_has_one_list_for_each_box() {
    let border = Box::new(30, 30);
    let boxes = [Box::new(20, 20), Box::new(10, 20), Box::new(30, 5), Box::new(30, 5)];
    let x_positions = collect_positions(0, &x_sizes(&boxes), border.size_x);
    let y_positions = collect_positions(0, &y_sizes(&boxes), border.size_y);
    assert_eq!(x_positions, vec![0, 10, 20]);
    assert_eq!(y_positions, vec![0, 5, 10, 15, 20, 25]);
    let space = solution_space(&border, &boxes, &x_positions, &y_positions);
    assert_eq!(
        space,
        vec![
            points(&[(0, 0), (0, 5), (0, 10), (10, 0), (10, 5), (10, 10)]),
            points(&[(0, 0), (0, 5), (0, 10), (10, 0), (10, 5), (10, 10), (20, 0), (20, 5), (20, 10)]),
            points(&[(0, 0), (0, 5), (0, 10), (0, 15), (0, 20), (0, 25)]),
            points(&[(0, 0), (0, 5), (0, 10), (0, 15), (0, 20), (0, 25)]),
        ]
    );
    assert_eq!(solution_space(&border, &[], &x_positions, &y_positions), Vec::<Vec<Position>>::new());
}
