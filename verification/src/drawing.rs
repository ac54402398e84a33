//! The canvas on which a problem, its candidate positions and its
//! solutions are laid out as coloured outlines.
//!
//! A `Drawer` collects the outlines and keeps track of the extent of the
//! canvas that they take up. Nothing is drawn before `Drawer::draw` turns
//! the outlines into markup.

use crate::candidates::lists;
use crate::geometry::{Box, Position};
use vstd::prelude::*;

verus! {

/// The colour of an outline.
#[derive(Debug, Clone, Copy, PartialEq, Eq, Structural)]
pub enum Color {
    Black,
    Blue,
    Green,
    Red,
    Yellow,
}

/// The colour of the box with the given number: blue, green, red and
/// yellow take turns.
pub open spec fn palette(i: int) -> Color {
    if i % 4 == 0 {
        Color::Blue
    } else if i % 4 == 1 {
        Color::Green
    } else if i % 4 == 2 {
        Color::Red
    } else {
        Color::Yellow
    }
}

impl Color {
    /// The name of the colour in markup.
    pub open spec fn spec_name(self) -> Seq<char> {
        match self {
            Color::Black => "black"@,
            Color::Blue => "blue"@,
            Color::Green => "green"@,
            Color::Red => "red"@,
            Color::Yellow => "yellow"@,
        }
    }

    /// The name of the colour in markup.
    pub fn name(&self) -> (text: &'static str)
        ensures
            text@ == self.spec_name(),
    {
        match self {
            Color::Black => "black",
            Color::Blue => "blue",
            Color::Green => "green",
            Color::Red => "red",
            Color::Yellow => "yellow",
        }
    }

    /// The colour of the box with the given number.
    pub fn of_box(i: usize) -> (color: Color)
        ensures
            color == palette(i as int),
    {
        let turn: usize = i % 4;
        if turn == 0 {
            Color::Blue
        } else if turn == 1 {
            Color::Green
        } else if turn == 2 {
            Color::Red
        } else {
            Color::Yellow
        }
    }
}

/// The outline of a rectangle, to be drawn in a colour and with a line of
/// some width.
#[derive(Debug, Clone, Copy, PartialEq, Eq, Structural)]
pub struct Stroke {
    pub shape: Box,
    pub color: Color,
    pub width: i32,
}

/// One command of the path that traces an outline.
#[derive(Debug, Clone, Copy, PartialEq, Eq, Structural)]
pub enum Step {
    /// Puts the pen down at a point.
    MoveTo { x: i32, y: i32 },
    /// Draws a line from where the pen stands, by a distance along each
    /// axis.
    LineBy { dx: i64, dy: i64 },
    /// Draws a line back to where the pen was put down.
    Close,
}

/// The path that traces the outline of `shape`: from the top-left corner
/// down, to the right, up, and back to the corner.
pub open spec fn outline(shape: Box) -> Seq<Step> {
    seq![
        Step::MoveTo { x: shape.x, y: shape.y },
        Step::LineBy { dx: 0, dy: shape.size_y as i64 },
        Step::LineBy { dx: shape.size_x as i64, dy: 0 },
        Step::LineBy { dx: 0, dy: (-shape.size_y) as i64 },
        Step::Close,
    ]
}

/// Where the pen stands after the first `n` steps of a path, given where
/// it stood before the path.
pub open spec fn pen_after(steps: Seq<Step>, start: (int, int), n: int) -> (int, int)
    decreases n,
{
    if n <= 0 {
        start
    } else {
        let before = pen_after(steps, start, n - 1);
        match steps[n - 1] {
            Step::MoveTo { x, y } => (x as int, y as int),
            Step::LineBy { dx, dy } => (before.0 + dx, before.1 + dy),
            Step::Close => before,
        }
    }
}

/// The path of an outline puts the pen down at the top-left corner of the
/// shape, takes it to the bottom-left, the bottom-right and the top-right
/// corner, and closes.
pub proof fn lemma_outline_visits_corners(shape: Box, start: (int, int))
    ensures
        outline(shape).len() == 5,
        pen_after(outline(shape), start, 1) == (shape.x as int, shape.y as int),
        pen_after(outline(shape), start, 2) == (shape.x as int, shape.bottom()),
        pen_after(outline(shape), start, 3) == (shape.right(), shape.bottom()),
        pen_after(outline(shape), start, 4) == (shape.right(), shape.y as int),
        outline(shape)[4] == Step::Close,
{
    reveal_with_fuel(pen_after, 5);
}

/// The outline of `shape` moved by `(dx, dy)`, drawn with a thin line.
pub open spec fn thin(shape: Box, dx: int, dy: int, color: Color) -> Stroke {
    Stroke { shape: shape.spec_translate(dx, dy), color, width: 1 }
}

/// The outline of `shape` moved by `(dx, dy)`, drawn with a thick line.
pub open spec fn thick(shape: Box, dx: int, dy: int, color: Color) -> Stroke {
    Stroke { shape: shape.spec_translate(dx, dy), color, width: 2 }
}

/// The value fits into an `i32`.
pub open spec fn fits_i32(v: int) -> bool {
    i32::MIN <= v <= i32::MAX
}

/// The larger of two numbers.
pub open spec fn larger(a: int, b: int) -> int {
    if a >= b {
        a
    } else {
        b
    }
}

impl Stroke {
    /// The path that traces the outline.
    pub fn steps(&self) -> (steps: Vec<Step>)
        ensures
            steps@ == outline(self.shape),
    {
        let shape = self.shape;
        let mut steps: Vec<Step> = Vec::new();
        steps.push(Step::MoveTo { x: shape.x, y: shape.y });
        steps.push(Step::LineBy { dx: 0, dy: shape.size_y as i64 });
        steps.push(Step::LineBy { dx: shape.size_x as i64, dy: 0 });
        steps.push(Step::LineBy { dx: 0, dy: -(shape.size_y as i64) });
        steps.push(Step::Close);
        assert(steps@ =~= outline(shape));
        steps
    }
}

impl Box {
    /// The outline of the rectangle.
    pub fn draw(&self, color: Color, width: i32) -> (stroke: Stroke)
        ensures
            stroke == (Stroke { shape: *self, color, width }),
    {
        Stroke { shape: *self, color, width }
    }

    /// The outline of the rectangle, with a thin line.
    pub fn draw_thin(&self, color: Color) -> (stroke: Stroke)
        ensures
            stroke == (Stroke { shape: *self, color, width: 1 }),
    {
        self.draw(color, 1)
    }

    /// The outline of the rectangle, with a thick line.
    pub fn draw_thick(&self, color: Color) -> (stroke: Stroke)
        ensures
            stroke == (Stroke { shape: *self, color, width: 2 }),
    {
        self.draw(color, 2)
    }
}

/// What a `Drawer` holds: the outlines in the order in which they were
/// added, and the extent of the canvas.
pub struct DrawerView {
    pub objects: Seq<Stroke>,
    pub x_max: int,
    pub y_max: int,
}

/// A canvas that grows downwards with everything that is added to it.
pub struct Drawer {
    pub objects: Vec<Stroke>,
    pub x_max: i32,
    pub y_max: i32,
}

impl View for Drawer {
    type V = DrawerView;

    open spec fn view(&self) -> DrawerView {
        DrawerView { objects: self.objects@, x_max: self.x_max as int, y_max: self.y_max as int }
    }
}

/// Where the row of a problem stands after `n` of its boxes: the border
/// comes first, and a gap of 10 lies before and after each rectangle.
pub open spec fn problem_x(border: Box, boxes: Seq<Box>, n: int) -> int
    decreases n,
{
    if n <= 0 {
        10 + border.size_x + 10
    } else {
        problem_x(border, boxes, n - 1) + boxes[n - 1].size_x + 10
    }
}

/// The outlines of a problem with the first `n` of its boxes: the border
/// in black with a thick line, then the boxes side by side.
pub open spec fn problem_strokes(border: Box, boxes: Seq<Box>, y_max: int, n: int) -> Seq<Stroke>
    decreases n,
{
    if n <= 0 {
        seq![thick(border, 10, 10, Color::Black)]
    } else {
        problem_strokes(border, boxes, y_max, n - 1).push(
            thin(boxes[n - 1], problem_x(border, boxes, n - 1), 10 + y_max, palette(n - 1)),
        )
    }
}

/// The row of the problem can be laid out with coordinates that fit.
pub open spec fn problem_fits(v: DrawerView, border: Box, boxes: Seq<Box>) -> bool {
    &&& border.can_translate(10, 10)
    &&& fits_i32(10 + v.y_max)
    &&& fits_i32(v.y_max + border.size_y + 20)
    &&& forall|n: int| 0 <= n <= boxes.len() ==> fits_i32(#[trigger] problem_x(border, boxes, n))
    &&& forall|n: int|
        0 <= n < boxes.len() ==> (#[trigger] boxes[n]).can_translate(
            problem_x(border, boxes, n),
            10 + v.y_max,
        )
}

/// The canvas after a problem was added to it: it is as wide as the row
/// where that is wider, and higher by the height of the border and 20.
pub open spec fn after_problem(v: DrawerView, border: Box, boxes: Seq<Box>) -> DrawerView {
    DrawerView {
        objects: v.objects + problem_strokes(border, boxes, v.y_max, boxes.len() as int),
        x_max: larger(v.x_max, problem_x(border, boxes, boxes.len() as int)),
        y_max: v.y_max + border.size_y + 20,
    }
}

/// Where the `n`-th copy of the border stands in a row of copies that
/// lie 20 apart.
pub open spec fn tile_x(border: Box, n: int) -> int
    decreases n,
{
    if n <= 0 {
        10
    } else {
        tile_x(border, n - 1) + border.size_x + 20
    }
}

/// The outlines of the first `n` candidate positions of a box: for each
/// position a copy of the border, and in it the box at that position.
pub open spec fn position_strokes(
    border: Box,
    abox: Box,
    color: Color,
    solution: Seq<Position>,
    y_max: int,
    n: int,
) -> Seq<Stroke>
    decreases n,
{
    if n <= 0 {
        Seq::empty()
    } else {
        position_strokes(border, abox, color, solution, y_max, n - 1).push(
            thick(border, tile_x(border, n - 1), y_max + 10, Color::Black),
        ).push(
            thin(
                abox,
                tile_x(border, n - 1) + solution[n - 1].x,
                10 + y_max + solution[n - 1].y,
                color,
            ),
        )
    }
}

/// A copy of the border at `x`, and in it the box at the position `p`,
/// can be laid out in a row below `y_max` with coordinates that fit.
pub open spec fn position_tile_fits(border: Box, abox: Box, y_max: int, x: int, p: Position) -> bool {
    &&& border.can_translate(x, y_max + 10)
    &&& fits_i32(x + p.x)
    &&& fits_i32(10 + y_max + p.y)
    &&& abox.can_translate(x + p.x, 10 + y_max + p.y)
}

/// The row of candidate positions can be laid out with coordinates that
/// fit.
pub open spec fn position_fits(v: DrawerView, solution: Seq<Position>, border: Box, abox: Box) -> bool {
    &&& fits_i32(v.y_max + 10)
    &&& fits_i32(v.y_max + border.size_x + 20)
    &&& forall|n: int| 0 <= n <= solution.len() ==> fits_i32(#[trigger] tile_x(border, n))
    &&& forall|n: int|
        0 <= n < solution.len() ==> #[trigger] position_tile_fits(
            border,
            abox,
            v.y_max,
            tile_x(border, n),
            solution[n],
        )
}

/// The canvas after the candidate positions of a box were added to it:
/// it is as wide as the row where that is wider, and higher by the width
/// of the border and 20.
pub open spec fn after_position(
    v: DrawerView,
    solution: Seq<Position>,
    border: Box,
    abox: Box,
    color: Color,
) -> DrawerView {
    DrawerView {
        objects: v.objects + position_strokes(border, abox, color, solution, v.y_max, solution.len() as int),
        x_max: larger(tile_x(border, solution.len() as int), v.x_max),
        y_max: v.y_max + border.size_x + 20,
    }
}

/// How many boxes are shown in colour: as many as there are, and as there
/// are lists for, but four at most.
pub open spec fn shown(lists: int, boxes: int) -> int {
    if lists <= boxes && lists <= 4 {
        lists
    } else if boxes <= 4 {
        boxes
    } else {
        4
    }
}

/// The canvas after the candidate positions of the first `n` boxes were
/// added to it, one row for each box.
pub open spec fn after_positions(
    v: DrawerView,
    solutions: Seq<Seq<Position>>,
    border: Box,
    boxes: Seq<Box>,
    n: int,
) -> DrawerView
    decreases n,
{
    if n <= 0 {
        v
    } else {
        after_position(
            after_positions(v, solutions, border, boxes, n - 1),
            solutions[n - 1],
            border,
            boxes[n - 1],
            palette(n - 1),
        )
    }
}

/// The rows of the first `n` boxes can be laid out with coordinates that
/// fit.
pub open spec fn positions_fit(
    v: DrawerView,
    solutions: Seq<Seq<Position>>,
    border: Box,
    boxes: Seq<Box>,
    n: int,
) -> bool
    decreases n,
{
    n <= 0 || (positions_fit(v, solutions, border, boxes, n - 1) && position_fits(
        after_positions(v, solutions, border, boxes, n - 1),
        solutions[n - 1],
        border,
        boxes[n - 1],
    ))
}

/// The outlines of a solution with the first `n` of its boxes, moved by
/// `(x, y)`: the border in black with a thick line, then the boxes.
pub open spec fn solution_strokes(border: Box, solution: Seq<Box>, x: int, y: int, n: int) -> Seq<Stroke>
    decreases n,
{
    if n <= 0 {
        seq![thick(border, x, y, Color::Black)]
    } else {
        solution_strokes(border, solution, x, y, n - 1).push(thin(solution[n - 1], x, y, palette(n - 1)))
    }
}

/// The border and the boxes of the solution that are shown can be moved
/// by `(x, y)`.
pub open spec fn solution_fits(border: Box, solution: Seq<Box>, x: int, y: int) -> bool {
    &&& border.can_translate(x, y)
    &&& forall|n: int|
        0 <= n < shown(solution.len() as int, 4) ==> (#[trigger] solution[n]).can_translate(x, y)
}

/// The canvas after a solution was added to it at `(x, y)`: its extent
/// stays as it is.
pub open spec fn after_solution(v: DrawerView, border: Box, solution: Seq<Box>, x: int, y: int) -> DrawerView {
    DrawerView {
        objects: v.objects + solution_strokes(border, solution, x, y, shown(solution.len() as int, 4)),
        x_max: v.x_max,
        y_max: v.y_max,
    }
}

/// The canvas while solutions are added to it, and where the next one
/// goes.
pub struct Tiling {
    pub canvas: DrawerView,
    pub x_pos: int,
}

/// The canvas after the first `n` solutions were added to it, from left
/// to right and, where a row is full, in a new row below.
pub open spec fn tiling(v: DrawerView, border: Box, solutions: Seq<Seq<Box>>, n: int) -> Tiling
    decreases n,
{
    if n <= 0 {
        Tiling { canvas: DrawerView { objects: v.objects, x_max: v.x_max, y_max: v.y_max + 10 }, x_pos: 10 }
    } else {
        let before = tiling(v, border, solutions, n - 1);
        let wrap = before.x_pos + border.size_x >= before.canvas.x_max;
        let left = if wrap {
            10
        } else {
            before.x_pos
        };
        let top = if wrap {
            before.canvas.y_max + border.size_y + 10
        } else {
            before.canvas.y_max
        };
        Tiling {
            canvas: DrawerView {
                objects: before.canvas.objects + solution_strokes(
                    border,
                    solutions[n - 1],
                    left,
                    top,
                    shown(solutions[n - 1].len() as int, 4),
                ),
                x_max: before.canvas.x_max,
                y_max: top,
            },
            x_pos: left + border.size_x + 20,
        }
    }
}

/// The first `n` solutions can be laid out with coordinates that fit.
pub open spec fn tiling_fits(v: DrawerView, border: Box, solutions: Seq<Seq<Box>>, n: int) -> bool
    decreases n,
{
    if n <= 0 {
        fits_i32(v.y_max + 10)
    } else {
        let before = tiling(v, border, solutions, n - 1);
        let after = tiling(v, border, solutions, n);
        &&& tiling_fits(v, border, solutions, n - 1)
        &&& fits_i32(before.x_pos + border.size_x)
        &&& fits_i32(after.canvas.y_max)
        &&& fits_i32(after.x_pos)
        &&& solution_fits(border, solutions[n - 1], after.x_pos - border.size_x - 20, after.canvas.y_max)
    }
}

/// All the solutions can be laid out with coordinates that fit.
pub open spec fn solutions_fit(v: DrawerView, border: Box, solutions: Seq<Seq<Box>>) -> bool {
    &&& tiling_fits(v, border, solutions, solutions.len() as int)
    &&& fits_i32(tiling(v, border, solutions, solutions.len() as int).canvas.y_max + border.size_x + 10)
}

/// The canvas after all the solutions were added to it: it is as wide as
/// before, and reaches down to the last row and, below it, the width of
/// the border and 10.
pub open spec fn after_solutions(v: DrawerView, border: Box, solutions: Seq<Seq<Box>>) -> DrawerView {
    let done = tiling(v, border, solutions, solutions.len() as int).canvas;
    DrawerView { objects: done.objects, x_max: done.x_max, y_max: done.y_max + border.size_x + 10 }
}

/// Whether the value fits into an `i32`.
fn in_range(v: i64) -> (fits: bool)
    ensures
        fits == fits_i32(v as int),
{
    i32::MIN as i64 <= v && v <= i32::MAX as i64
}

impl Drawer {
    /// An empty canvas.
    pub fn new() -> (drawer: Drawer)
        ensures
            drawer@ == (DrawerView { objects: Seq::empty(), x_max: 0, y_max: 0 }),
    {
        Drawer { objects: Vec::new(), x_max: 0, y_max: 0 }
    }

    /// Adds the border and, to its right, the boxes side by side.
    pub fn add_problem(&mut self, border: &Box, boxes: &[Box])
        requires
            problem_fits(old(self)@, *border, boxes@),
        ensures
            final(self)@ == after_problem(old(self)@, *border, boxes@),
    {
        let done = self.try_add_problem(border, boxes);
        assert(done);
    }

    /// Adds the border and, to its right, the boxes side by side, unless
    /// a coordinate would not fit: then the canvas stays as it is.
    pub fn try_add_problem(&mut self, border: &Box, boxes: &[Box]) -> (done: bool)
        ensures
            done == problem_fits(old(self)@, *border, boxes@),
            done ==> final(self)@ == after_problem(old(self)@, *border, boxes@),
            !done ==> final(self)@ == old(self)@,
    {
        let ghost before = self@;
        let row_y: i64 = 10 + self.y_max as i64;
        let next_y: i64 = self.y_max as i64 + border.size_y as i64 + 20;
        let mut x_pos: i64 = 10 + border.size_x as i64 + 10;
        if !in_range(row_y) || !in_range(next_y) || !in_range(x_pos) {
            assert(x_pos == problem_x(*border, boxes@, 0));
            return false;
        }
        let mut strokes: Vec<Stroke> = Vec::new();
        match border.checked_translate(10, 10) {
            Some(moved) => {
                strokes.push(moved.draw_thick(Color::Black));
            },
            None => {
                return false;
            },
        }
        let mut n: usize = 0;
        while n < boxes.len()
            invariant
                0 <= n <= boxes.len(),
                self@ == before,
                border.can_translate(10, 10),
                row_y == 10 + before.y_max,
                fits_i32(row_y as int),
                next_y == before.y_max + border.size_y + 20,
                fits_i32(next_y as int),
                x_pos == problem_x(*border, boxes@, n as int),
                forall|m: int| 0 <= m <= n ==> fits_i32(#[trigger] problem_x(*border, boxes@, m)),
                forall|m: int|
                    0 <= m < n ==> (#[trigger] boxes@[m]).can_translate(
                        problem_x(*border, boxes@, m),
                        10 + before.y_max,
                    ),
                strokes@ == problem_strokes(*border, boxes@, before.y_max, n as int),
            decreases boxes.len() - n,
        {
            let abox = &boxes[n];
            match abox.checked_translate(x_pos as i32, row_y as i32) {
                Some(moved) => {
                    strokes.push(moved.draw_thin(Color::of_box(n)));
                },
                None => {
                    assert(!boxes@[n as int].can_translate(
                        problem_x(*border, boxes@, n as int),
                        10 + before.y_max,
                    ));
                    return false;
                },
            }
            x_pos = x_pos + abox.size_x as i64 + 10;
            assert(x_pos == problem_x(*border, boxes@, n + 1));
            if !in_range(x_pos) {
                return false;
            }
            n += 1;
        }
        self.objects.append(&mut strokes);
        if x_pos > self.x_max as i64 {
            self.x_max = x_pos as i32;
        }
        self.y_max = next_y as i32;
        true
    }

    /// Adds one row for each box that is shown: its candidate positions
    /// from left to right, each in a copy of the border.
    pub fn add_positions(&mut self, solutions: &Vec<Vec<Position>>, border: &Box, boxes: &[Box])
        requires
            positions_fit(
                old(self)@,
                lists(solutions@),
                *border,
                boxes@,
                shown(solutions@.len() as int, boxes@.len() as int),
            ),
        ensures
            final(self)@ == after_positions(
                old(self)@,
                lists(solutions@),
                *border,
                boxes@,
                shown(solutions@.len() as int, boxes@.len() as int),
            ),
    {
        let done = self.try_add_positions(solutions, border, boxes);
        assert(done);
    }

    /// Adds one row for each box that is shown, unless a coordinate would
    /// not fit: then the canvas stays as it is.
    pub fn try_add_positions(&mut self, solutions: &Vec<Vec<Position>>, border: &Box, boxes: &[Box]) -> (done:
        bool)
        ensures
            done == positions_fit(
                old(self)@,
                lists(solutions@),
                *border,
                boxes@,
                shown(solutions@.len() as int, boxes@.len() as int),
            ),
            done ==> final(self)@ == after_positions(
                old(self)@,
                lists(solutions@),
                *border,
                boxes@,
                shown(solutions@.len() as int, boxes@.len() as int),
            ),
            !done ==> final(self)@ == old(self)@,
    {
        let ghost before = self@;
        let ghost rows = shown(solutions@.len() as int, boxes@.len() as int);
        let ghost all = lists(solutions@);
        let old_len = self.objects.len();
        let old_x_max = self.x_max;
        let old_y_max = self.y_max;
        let mut n: usize = 0;
        while n < solutions.len() && n < boxes.len() && n < 4
            invariant
                0 <= n <= rows,
                rows == shown(solutions@.len() as int, boxes@.len() as int),
                all == lists(solutions@),
                before == old(self)@,
                old_len == before.objects.len(),
                old_x_max == before.x_max,
                old_y_max == before.y_max,
                positions_fit(before, all, *border, boxes@, n as int),
                self@ == after_positions(before, all, *border, boxes@, n as int),
                self.objects@.len() >= old_len,
                self.objects@.take(old_len as int) == before.objects,
            decreases rows - n,
        {
            assert(all[n as int] == solutions@[n as int]@);
            let ghost so_far = self.objects@;
            let added = self.try_add_position(&solutions[n], border, &boxes[n], Color::of_box(n));
            if !added {
                proof {
                    if positions_fit(before, all, *border, boxes@, rows) {
                        lemma_positions_fit_earlier(before, all, *border, boxes@, rows, n + 1);
                    }
                }
                self.objects.truncate(old_len);
                self.x_max = old_x_max;
                self.y_max = old_y_max;
                assert(self.objects@ =~= before.objects);
                return false;
            }
            assert(self.objects@.take(old_len as int) =~= so_far.take(old_len as int));
            n += 1;
        }
        true
    }

    /// Adds a row with the candidate positions of one box, each in a copy
    /// of the border.
    pub fn add_position(&mut self, solution: &Vec<Position>, border: &Box, abox: &Box, color: Color)
        requires
            position_fits(old(self)@, solution@, *border, *abox),
        ensures
            final(self)@ == after_position(old(self)@, solution@, *border, *abox, color),
    {
        let done = self.try_add_position(solution, border, abox, color);
        assert(done);
    }

    /// Adds a row with the candidate positions of one box, unless a
    /// coordinate would not fit: then the canvas stays as it is.
    pub fn try_add_position(&mut self, solution: &Vec<Position>, border: &Box, abox: &Box, color: Color) -> (done:
        bool)
        ensures
            done == position_fits(old(self)@, solution@, *border, *abox),
            done ==> final(self)@ == after_position(old(self)@, solution@, *border, *abox, color),
            !done ==> final(self)@ == old(self)@,
    {
        let ghost before = self@;
        let row_y: i64 = self.y_max as i64 + 10;
        let next_y: i64 = self.y_max as i64 + border.size_x as i64 + 20;
        if !in_range(row_y) || !in_range(next_y) {
            return false;
        }
        let mut strokes: Vec<Stroke> = Vec::new();
        let mut x_pos: i64 = 10;
        let mut n: usize = 0;
        assert(fits_i32(tile_x(*border, 0)));
        while n < solution.len()
            invariant
                0 <= n <= solution.len(),
                self@ == before,
                row_y == before.y_max + 10,
                fits_i32(row_y as int),
                next_y == before.y_max + border.size_x + 20,
                fits_i32(next_y as int),
                x_pos == tile_x(*border, n as int),
                forall|m: int| 0 <= m <= n ==> fits_i32(#[trigger] tile_x(*border, m)),
                forall|m: int|
                    0 <= m < n ==> #[trigger] position_tile_fits(
                        *border,
                        *abox,
                        before.y_max,
                        tile_x(*border, m),
                        solution@[m],
                    ),
                strokes@ == position_strokes(*border, *abox, color, solution@, before.y_max, n as int),
            decreases solution.len() - n,
        {
            let solution_part = &solution[n];
            let ghost fits_here = position_tile_fits(
                *border,
                *abox,
                before.y_max,
                tile_x(*border, n as int),
                solution@[n as int],
            );
            let box_x: i64 = x_pos + solution_part.x as i64;
            let box_y: i64 = row_y + solution_part.y as i64;
            if !in_range(box_x) || !in_range(box_y) {
                assert(!fits_here);
                return false;
            }
            match border.checked_translate(x_pos as i32, row_y as i32) {
                Some(moved) => {
                    strokes.push(moved.draw_thick(Color::Black));
                },
                None => {
                    assert(!fits_here);
                    return false;
                },
            }
            match abox.checked_translate(box_x as i32, box_y as i32) {
                Some(moved) => {
                    strokes.push(moved.draw_thin(color));
                },
                None => {
                    assert(!fits_here);
                    return false;
                },
            }
            assert(fits_here);
            x_pos = x_pos + border.size_x as i64 + 20;
            assert(x_pos == tile_x(*border, n + 1));
            if !in_range(x_pos) {
                return false;
            }
            n += 1;
        }
        self.objects.append(&mut strokes);
        self.y_max = next_y as i32;
        if x_pos > self.x_max as i64 {
            self.x_max = x_pos as i32;
        }
        true
    }

    /// Adds the border and the boxes of a solution that are shown, moved
    /// by `(x_pos, y_pos)`.
    pub fn _add_solution(&mut self, border: &Box, solution: &Vec<Box>, x_pos: i32, y_pos: i32)
        requires
            solution_fits(*border, solution@, x_pos as int, y_pos as int),
        ensures
            final(self)@ == after_solution(old(self)@, *border, solution@, x_pos as int, y_pos as int),
    {
        let done = self.try_add_solution(border, solution, x_pos, y_pos);
        assert(done);
    }

    /// Adds the border and the boxes of a solution that are shown, moved
    /// by `(x_pos, y_pos)`, unless a coordinate would not fit: then the
    /// canvas stays as it is.
    pub fn try_add_solution(&mut self, border: &Box, solution: &Vec<Box>, x_pos: i32, y_pos: i32) -> (done:
        bool)
        ensures
            done == solution_fits(*border, solution@, x_pos as int, y_pos as int),
            done ==> final(self)@ == after_solution(
                old(self)@,
                *border,
                solution@,
                x_pos as int,
                y_pos as int,
            ),
            !done ==> final(self)@ == old(self)@,
    {
        let ghost before = self@;
        let mut strokes: Vec<Stroke> = Vec::new();
        match border.checked_translate(x_pos, y_pos) {
            Some(moved) => {
                strokes.push(moved.draw_thick(Color::Black));
            },
            None => {
                return false;
            },
        }
        let mut n: usize = 0;
        while n < solution.len() && n < 4
            invariant
                0 <= n <= shown(solution@.len() as int, 4),
                self@ == before,
                border.can_translate(x_pos as int, y_pos as int),
                forall|m: int| 0 <= m < n ==> (#[trigger] solution@[m]).can_translate(x_pos as int, y_pos as int),
                strokes@ == solution_strokes(*border, solution@, x_pos as int, y_pos as int, n as int),
            decreases 4 - n,
        {
            match solution[n].checked_translate(x_pos, y_pos) {
                Some(moved) => {
                    strokes.push(moved.draw_thin(Color::of_box(n)));
                },
                None => {
                    assert(!solution@[n as int].can_translate(x_pos as int, y_pos as int));
                    return false;
                },
            }
            n += 1;
        }
        self.objects.append(&mut strokes);
        true
    }

    /// Adds the solutions from left to right, and starts a new row where
    /// the next one would reach the right end of the canvas.
    pub fn add_solutions(&mut self, border: &Box, solutions: &Vec<Vec<Box>>)
        requires
            solutions_fit(old(self)@, *border, lists(solutions@)),
        ensures
            final(self)@ == after_solutions(old(self)@, *border, lists(solutions@)),
    {
        let done = self.try_add_solutions(border, solutions);
        assert(done);
    }

    /// Adds the solutions from left to right and row by row, unless a
    /// coordinate would not fit: then the canvas stays as it is.
    pub fn try_add_solutions(&mut self, border: &Box, solutions: &Vec<Vec<Box>>) -> (done: bool)
        ensures
            done == solutions_fit(old(self)@, *border, lists(solutions@)),
            done ==> final(self)@ == after_solutions(old(self)@, *border, lists(solutions@)),
            !done ==> final(self)@ == old(self)@,
    {
        let ghost before = self@;
        let ghost all = lists(solutions@);
        let old_len = self.objects.len();
        let first_y: i64 = self.y_max as i64 + 10;
        if !in_range(first_y) {
            proof {
                if tiling_fits(before, *border, all, all.len() as int) {
                    lemma_tiling_fits_earlier(before, *border, all, all.len() as int, 0);
                }
            }
            return false;
        }
        let mut x_pos: i32 = 10;
        let mut y_pos: i32 = first_y as i32;
        let mut n: usize = 0;
        while n < solutions.len()
            invariant
                0 <= n <= solutions.len(),
                all == lists(solutions@),
                before == old(self)@,
                old_len == before.objects.len(),
                tiling_fits(before, *border, all, n as int),
                self.objects@ == tiling(before, *border, all, n as int).canvas.objects,
                self.x_max == before.x_max,
                self.y_max == before.y_max,
                y_pos == tiling(before, *border, all, n as int).canvas.y_max,
                x_pos == tiling(before, *border, all, n as int).x_pos,
                tiling(before, *border, all, n as int).canvas.x_max == before.x_max,
                self.objects@.len() >= old_len,
                self.objects@.take(old_len as int) == before.objects,
            decreases solutions.len() - n,
        {
            assert(all[n as int] == solutions@[n as int]@);
            let ghost so_far = self.objects@;
            let reach: i64 = x_pos as i64 + border.size_x as i64;
            let wrap = reach >= self.x_max as i64;
            let left: i32 = if wrap {
                10
            } else {
                x_pos
            };
            let top: i64 = if wrap {
                y_pos as i64 + border.size_y as i64 + 10
            } else {
                y_pos as i64
            };
            let next_x: i64 = left as i64 + border.size_x as i64 + 20;
            let mut added = in_range(reach) && in_range(top) && in_range(next_x);
            if added {
                added = self.try_add_solution(border, &solutions[n], left, top as i32);
            }
            if !added {
                proof {
                    if tiling_fits(before, *border, all, all.len() as int) {
                        lemma_tiling_fits_earlier(before, *border, all, all.len() as int, n + 1);
                    }
                }
                self.objects.truncate(old_len);
                assert(self.objects@ =~= before.objects);
                return false;
            }
            assert(self.objects@.take(old_len as int) =~= so_far.take(old_len as int));
            x_pos = next_x as i32;
            y_pos = top as i32;
            n += 1;
        }
        let last_y: i64 = y_pos as i64 + border.size_x as i64 + 10;
        if !in_range(last_y) {
            self.objects.truncate(old_len);
            assert(self.objects@ =~= before.objects);
            return false;
        }
        self.y_max = last_y as i32;
        true
    }
}

/// Rows that can be laid out include the rows before them.
proof fn lemma_positions_fit_earlier(
    v: DrawerView,
    solutions: Seq<Seq<Position>>,
    border: Box,
    boxes: Seq<Box>,
    n: int,
    m: int,
)
    requires
        positions_fit(v, solutions, border, boxes, n),
        0 <= m <= n,
    ensures
        positions_fit(v, solutions, border, boxes, m),
    decreases n - m,
{
    if m < n {
        lemma_positions_fit_earlier(v, solutions, border, boxes, n - 1, m);
    }
}

/// Solutions that can be laid out include the solutions before them.
proof fn lemma_tiling_fits_earlier(v: DrawerView, border: Box, solutions: Seq<Seq<Box>>, n: int, m: int)
    requires
        tiling_fits(v, border, solutions, n),
        0 <= m <= n,
    ensures
        tiling_fits(v, border, solutions, m),
    decreases n - m,
{
    if m < n {
        lemma_tiling_fits_earlier(v, border, solutions, n - 1, m);
    }
}

} // verus!
