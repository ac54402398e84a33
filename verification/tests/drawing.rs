use box_packing::candidates::{collect_positions, solution_space, x_sizes, y_sizes};
use box_packing::drawing::{Color, Drawer, Step, Stroke};
use box_packing::geometry::{Box, Position};
use box_packing::search::collect_solutions;

fn stroke(x: i32, y: i32, size_x: i32, size_y: i32, color: Color, width: i32) -> Stroke {
    Stroke { shape: Box { x, y, size_x, size_y }, color, width }
}

fn state(drawer: &Drawer) -> (usize, i32, i32) {
    (drawer.objects.len(), drawer.x_max, drawer.y_max)
}

fn four_boxes() -> [Box; 4] {
    [Box::new(20, 20), Box::new(10, 20), Box::new(30, 5), Box::new(30, 5)]
}

#[test]
fn colors_have_their_names() {
    assert_eq!(Color::Black.name(), "black");
    assert_eq!(Color::Blue.name(), "blue");
    assert_eq!(Color::Green.name(), "green");
    assert_eq!(Color::Red.name(), "red");
    assert_eq!(Color::Yellow.name(), "yellow");
}

#[test]
fn box_colors_take_turns() {
    let colors: Vec<Color> = (0..9).map(Color::of_box).collect();
    assert_eq!(
        colors,
        vec![
            Color::Blue,
            Color::Green,
            Color::Red,
            Color::Yellow,
            Color::Blue,
            Color::Green,
            Color::Red,
            Color::Yellow,
            Color::Blue
        ]
    );
    assert_eq!(Color::of_box(usize::MAX), Color::Yellow);
}

#[test]
fn draw_keeps_the_shape() {
    let shape = Box { x: 3, y: 4, size_x: 20, size_y: 10 };
    assert_eq!(shape.draw(Color::Red, 7), Stroke { shape, color: Color::Red, width: 7 });
    assert_eq!(shape.draw_thin(Color::Blue), Stroke { shape, color: Color::Blue, width: 1 });
    assert_eq!(shape.draw_thick(Color::Black), Stroke { shape, color: Color::Black, width: 2 });
}

#[test]
fn new_drawer_is_empty() {
    let drawer = Drawer::new();
    assert_eq!(state(&drawer), (0, 0, 0));
}

#[test]
fn problem_is_laid_out_in_a_row() {
    let mut drawer = Drawer::new();
    drawer.add_problem(&Box::new(30, 30), &four_boxes());
    assert_eq!(
        drawer.objects,
        vec![
            stroke(10, 10, 30, 30, Color::Black, 2),
            stroke(50, 10, 20, 20, Color::Blue, 1),
            stroke(80, 10, 10, 20, Color::Green, 1),
            stroke(100, 10, 30, 5, Color::Red, 1),
            stroke(140, 10, 30, 5, Color::Yellow, 1),
        ]
    );
    assert_eq!((drawer.x_max, drawer.y_max), (180, 50));
}

#[test]
fn problem_below_another_keeps_the_wider_extent() {
    let mut drawer = Drawer::new();
    drawer.add_problem(&Box::new(30, 30), &four_boxes());
    drawer.add_problem(&Box::new(10, 15), &[Box { x: 1, y: 2, size_x: 5, size_y: 5 }]);
    assert_eq!(state(&drawer), (7, 180, 85));
    assert_eq!(drawer.objects[5], stroke(10, 10, 10, 15, Color::Black, 2));
    assert_eq!(drawer.objects[6], stroke(31, 62, 5, 5, Color::Blue, 1));
}

#[test]
fn problem_with_more_than_four_boxes_repeats_the_colors() {
    let mut drawer = Drawer::new();
    let boxes = [Box::new(1, 1); 6];
    drawer.add_problem(&Box::new(5, 5), &boxes);
    assert_eq!(state(&drawer), (7, 91, 25));
    assert_eq!(drawer.objects[5], stroke(69, 10, 1, 1, Color::Blue, 1));
    assert_eq!(drawer.objects[6], stroke(80, 10, 1, 1, Color::Green, 1));
}

#[test]
fn problem_that_does_not_fit_is_not_added() {
    let mut drawer = Drawer::new();
    drawer.add_problem(&Box::new(30, 30), &four_boxes());
    let before = drawer.objects.clone();
    assert!(!drawer.try_add_problem(&Box::new(30, 30), &[Box::new(20, 20), Box::new(i32::MAX, 5)]));
    assert!(!drawer.try_add_problem(&Box::new(30, i32::MAX), &four_boxes()));
    assert!(!drawer.try_add_problem(&Box { x: i32::MAX, y: 0, size_x: 1, size_y: 1 }, &[]));
    assert!(!drawer.try_add_problem(&Box::new(30, 30), &[Box { x: 0, y: i32::MAX, size_x: 1, size_y: 1 }]));
    assert_eq!(drawer.objects, before);
    assert_eq!((drawer.x_max, drawer.y_max), (180, 50));
    assert!(drawer.try_add_problem(&Box::new(30, 30), &four_boxes()));
    assert_eq!(state(&drawer), (10, 180, 100));
}

#[test]
fn positions_are_laid_out_in_a_row() {
    let mut drawer = Drawer::new();
    drawer.y_max = 50;
    drawer.x_max = 180;
    let positions = vec![Position::new(0, 0), Position::new(0, 10), Position::new(10, 5)];
    drawer.add_position(&positions, &Box::new(30, 40), &Box::new(20, 20), Color::Green);
    assert_eq!(
        drawer.objects,
        vec![
            stroke(10, 60, 30, 40, Color::Black, 2),
            stroke(10, 60, 20, 20, Color::Green, 1),
            stroke(60, 60, 30, 40, Color::Black, 2),
            stroke(60, 70, 20, 20, Color::Green, 1),
            stroke(110, 60, 30, 40, Color::Black, 2),
            stroke(120, 65, 20, 20, Color::Green, 1),
        ]
    );
    assert_eq!((drawer.x_max, drawer.y_max), (180, 100));
}

#[test]
fn positions_widen_the_canvas() {
    let mut drawer = Drawer::new();
    let positions = vec![Position::new(0, 0); 9];
    drawer.add_position(&positions, &Box::new(30, 30), &Box::new(10, 20), Color::Blue);
    assert_eq!(state(&drawer), (18, 460, 50));
    drawer.add_position(&Vec::new(), &Box::new(30, 30), &Box::new(10, 20), Color::Blue);
    assert_eq!(state(&drawer), (18, 460, 100));
}

#[test]
fn positions_of_four_boxes_at_most_are_shown() {
    let border = Box::new(30, 30);
    let one = vec![Position::new(0, 0)];
    let mut drawer = Drawer::new();
    drawer.add_positions(&vec![one.clone(); 6], &border, &[Box::new(10, 10); 6]);
    assert_eq!(state(&drawer), (8, 60, 200));
    assert_eq!(drawer.objects[1], stroke(10, 10, 10, 10, Color::Blue, 1));
    assert_eq!(drawer.objects[3], stroke(10, 60, 10, 10, Color::Green, 1));
    assert_eq!(drawer.objects[5], stroke(10, 110, 10, 10, Color::Red, 1));
    assert_eq!(drawer.objects[7], stroke(10, 160, 10, 10, Color::Yellow, 1));

    let mut drawer = Drawer::new();
    drawer.add_positions(&vec![one.clone(); 3], &border, &[Box::new(10, 10); 2]);
    assert_eq!(state(&drawer), (4, 60, 100));

    let mut drawer = Drawer::new();
    drawer.add_positions(&vec![one.clone(); 1], &border, &[Box::new(10, 10); 2]);
    assert_eq!(state(&drawer), (2, 60, 50));

    let mut drawer = Drawer::new();
    drawer.add_positions(&Vec::new(), &border, &[Box::new(10, 10); 2]);
    assert_eq!(state(&drawer), (0, 0, 0));
}

#[test]
fn positions_that_do_not_fit_are_not_added() {
    let border = Box::new(30, 30);
    let mut drawer = Drawer::new();
    drawer.add_problem(&border, &four_boxes());
    let before = drawer.objects.clone();
    let fine = vec![Position::new(0, 0), Position::new(10, 10)];
    let far = vec![Position::new(0, 0), Position::new(i32::MAX, 0)];
    assert!(!drawer.try_add_position(&far, &border, &Box::new(10, 10), Color::Blue));
    assert!(!drawer.try_add_position(&fine, &Box::new(i32::MAX, 30), &Box::new(10, 10), Color::Blue));
    assert!(!drawer.try_add_positions(&vec![fine.clone(), fine.clone(), far], &border, &four_boxes()));
    assert_eq!(drawer.objects, before);
    assert_eq!((drawer.x_max, drawer.y_max), (180, 50));
    assert!(drawer.try_add_positions(&vec![fine.clone(), fine.clone()], &border, &four_boxes()));
    assert_eq!(state(&drawer), (13, 180, 150));
}

#[test]
fn solution_is_drawn_with_four_boxes_at_most() {
    let mut drawer = Drawer::new();
    let solution = vec![
        Box { x: 0, y: 0, size_x: 20, size_y: 20 },
        Box { x: 20, y: 0, size_x: 10, size_y: 20 },
        Box { x: 0, y: 20, size_x: 30, size_y: 5 },
        Box { x: 0, y: 25, size_x: 30, size_y: 5 },
        Box { x: 1, y: 1, size_x: 1, size_y: 1 },
    ];
    drawer._add_solution(&Box::new(30, 30), &solution, 60, 300);
    assert_eq!(
        drawer.objects,
        vec![
            stroke(60, 300, 30, 30, Color::Black, 2),
            stroke(60, 300, 20, 20, Color::Blue, 1),
            stroke(80, 300, 10, 20, Color::Green, 1),
            stroke(60, 320, 30, 5, Color::Red, 1),
            stroke(60, 325, 30, 5, Color::Yellow, 1),
        ]
    );
    assert_eq!((drawer.x_max, drawer.y_max), (0, 0));
    assert!(!drawer.try_add_solution(&Box::new(30, 30), &solution, i32::MAX, 0));
    assert_eq!(state(&drawer), (5, 0, 0));
}

#[test]
fn solutions_wrap_at_the_end_of_the_canvas() {
    let border = Box::new(30, 30);
    let solution = vec![Box { x: 0, y: 0, size_x: 20, size_y: 20 }];
    let mut drawer = Drawer::new();
    drawer.x_max = 150;
    drawer.y_max = 100;
    drawer.add_solutions(&border, &vec![solution.clone(); 5]);
    let corners: Vec<(i32, i32)> = drawer.objects.iter().map(|s| (s.shape.x, s.shape.y)).collect();
    assert_eq!(
        corners,
        vec![
            (10, 110),
            (10, 110),
            (60, 110),
            (60, 110),
            (110, 110),
            (110, 110),
            (10, 150),
            (10, 150),
            (60, 150),
            (60, 150)
        ]
    );
    assert_eq!((drawer.x_max, drawer.y_max), (150, 190));
}

#[test]
fn solutions_on_a_narrow_canvas_stand_below_each_other() {
    let border = Box::new(30, 30);
    let mut drawer = Drawer::new();
    drawer.add_solutions(&border, &vec![Vec::new(), Vec::new()]);
    assert_eq!(
        drawer.objects,
        vec![stroke(10, 50, 30, 30, Color::Black, 2), stroke(10, 90, 30, 30, Color::Black, 2)]
    );
    assert_eq!((drawer.x_max, drawer.y_max), (0, 130));
    let mut drawer = Drawer::new();
    drawer.add_solutions(&border, &Vec::new());
    assert_eq!(state(&drawer), (0, 0, 50));
}

#[test]
fn solutions_that_do_not_fit_are_not_added() {
    let border = Box::new(30, 30);
    let mut drawer = Drawer::new();
    drawer.add_problem(&border, &four_boxes());
    let before = drawer.objects.clone();
    let fine = vec![Box::new(20, 20)];
    let far = vec![Box { x: i32::MAX - 5, y: 0, size_x: 1, size_y: 1 }];
    assert!(!drawer.try_add_solutions(&border, &vec![fine.clone(), fine.clone(), far]));
    assert!(!drawer.try_add_solutions(&Box::new(i32::MAX - 5, 5), &vec![fine.clone()]));
    assert_eq!(drawer.objects, before);
    assert_eq!((drawer.x_max, drawer.y_max), (180, 50));
    assert!(drawer.try_add_solutions(&border, &vec![fine.clone(), fine.clone()]));
    assert_eq!(state(&drawer), (9, 180, 100));
}

#[test]
fn whole_picture_of_four_boxes() {
    let border = Box::new(30, 30);
    let boxes = four_boxes();
    let mut drawer = Drawer::new();
    drawer.add_problem(&border, &boxes);
    assert_eq!(state(&drawer), (5, 180, 50));
    let x_positions = collect_positions(0, &x_sizes(&boxes), border.size_x);
    let y_positions = collect_positions(0, &y_sizes(&boxes), border.size_y);
    let space = solution_space(&border, &boxes, &x_positions, &y_positions);
    drawer.add_positions(&space, &border, &boxes);
    assert_eq!(state(&drawer), (59, 460, 250));
    let solutions = collect_solutions(&boxes, &space, Vec::new());
    assert_eq!(solutions.len(), 12);
    drawer.add_solutions(&border, &solutions);
    assert_eq!(state(&drawer), (119, 460, 340));
    let text = drawer.draw();
    assert_eq!(text.lines().count(), 121);
    assert_eq!(text.matches("<path ").count(), 119);
}

#[test]
fn empty_canvas_as_markup() {
    assert_eq!(Drawer::new().draw(), "<svg viewBox=\"0 0 0 0\" xmlns=\"http://www.w3.org/2000/svg\"/>");
}

#[test]
fn outlines_as_markup() {
    let mut drawer = Drawer::new();
    drawer.add_problem(&Box::new(30, 40), &[Box::new(20, 10)]);
    assert_eq!(
        drawer.draw(),
        "<svg viewBox=\"0 0 80 60\" xmlns=\"http://www.w3.org/2000/svg\">\n\
         <path d=\"M10,10 l0,40 l30,0 l0,-40 z\" fill=\"none\" stroke=\"black\" stroke-width=\"2\"/>\n\
         <path d=\"M50,10 l0,10 l20,0 l0,-10 z\" fill=\"none\" stroke=\"blue\" stroke-width=\"1\"/>\n\
         </svg>"
    );
}

#[test]
fn markup_of_the_smallest_height() {
    let mut drawer = Drawer::new();
    drawer.objects.push(Box { x: -1, y: -2, size_x: 3, size_y: i32::MIN }.draw(Color::Red, 5));
    drawer.x_max = 7;
    drawer.y_max = -9;
    assert_eq!(
        drawer.draw(),
        "<svg viewBox=\"0 0 7 -9\" xmlns=\"http://www.w3.org/2000/svg\">\n\
         <path d=\"M-1,-2 l0,-2147483600 l3,0 l0,2147483600 z\" fill=\"none\" stroke=\"red\" stroke-width=\"5\"/>\n\
         </svg>"
    );
}

#[test]
fn steps_run_round_the_shape() {
    assert_eq!(
        stroke(3, 4, 20, 10, Color::Blue, 1).steps(),
        vec![
            Step::MoveTo { x: 3, y: 4 },
            Step::LineBy { dx: 0, dy: 10 },
            Step::LineBy { dx: 20, dy: 0 },
            Step::LineBy { dx: 0, dy: -10 },
            Step::Close,
        ]
    );
    assert_eq!(
        stroke(-1, -2, -3, i32::MIN, Color::Red, 5).steps(),
        vec![
            Step::MoveTo { x: -1, y: -2 },
            Step::LineBy { dx: 0, dy: -2147483648 },
            Step::LineBy { dx: -3, dy: 0 },
            Step::LineBy { dx: 0, dy: 2147483648 },
            Step::Close,
        ]
    );
}
