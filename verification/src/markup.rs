//! The outlines of a canvas as an SVG document.
//!
//! The document is put together by the `svg` crate. Its values are opaque
//! here. What they hold has a name each: the commands of path data, the
//! attributes and nodes of a path and of a document. What `svg` makes of
//! numbers and how it writes an element out has a name too, so that the
//! markup of a canvas is told in terms of what was handed to `svg`.

use crate::drawing::{outline, Drawer, DrawerView, Step, Stroke};
use svg::node::element::path::Data;
use svg::node::element::{Path, SVG};
use vstd::prelude::*;

verus! {

/// A command of path data, `svg::node::element::path::Command`. Opaque.
#[verifier::external_type_specification]
#[verifier::external_body]
pub struct ExCommand(svg::node::element::path::Command);

/// The data of a path, `svg::node::element::path::Data`. Opaque.
#[verifier::external_type_specification]
#[verifier::external_body]
pub struct ExData(svg::node::element::path::Data);

/// An element of a document, `svg::node::element::Element`. Opaque.
#[verifier::external_type_specification]
#[verifier::external_body]
pub struct ExElement(svg::node::element::Element);

/// A path element, `svg::node::element::Path`. Opaque.
#[verifier::external_type_specification]
#[verifier::external_body]
pub struct ExPath(svg::node::element::Path);

/// A document, `svg::node::element::SVG`, which `svg` also calls
/// `Document`. Opaque.
#[verifier::external_type_specification]
#[verifier::external_body]
pub struct ExDocument(svg::node::element::SVG);

/// What path data holds: the text of each of its commands, in their
/// order.
pub uninterp spec fn data_commands(data: Data) -> Seq<Seq<char>>;

/// The text of the command that `Data::move_to` adds for a point.
pub uninterp spec fn move_to_text(x: int, y: int) -> Seq<char>;

/// The text of the command that `Data::line_by` adds for a distance along
/// each axis.
pub uninterp spec fn line_by_text(dx: int, dy: int) -> Seq<char>;

/// The attributes that a path holds: the value of each by its name.
pub uninterp spec fn path_attributes(path: Path) -> Map<Seq<char>, Seq<char>>;

/// The nodes that a path holds, in their order: of each whether it is
/// written without a line break before it, and its markup.
pub uninterp spec fn path_nodes(path: Path) -> Seq<(bool, Seq<char>)>;

/// The value that `svg` makes of a whole number for an attribute.
pub uninterp spec fn number_text(value: int) -> Seq<char>;

/// The attributes that a document holds: the value of each by its name.
pub uninterp spec fn document_attributes(document: SVG) -> Map<Seq<char>, Seq<char>>;

/// The nodes that a document holds, in their order: of each its markup.
pub uninterp spec fn document_nodes(document: SVG) -> Seq<Seq<char>>;

/// The markup of a path with the given attributes and nodes.
pub uninterp spec fn path_markup(attributes: Map<Seq<char>, Seq<char>>, nodes: Seq<(bool, Seq<char>)>) -> Seq<
    char,
>;

/// The markup of a document with the given attributes and nodes.
pub uninterp spec fn document_markup(attributes: Map<Seq<char>, Seq<char>>, nodes: Seq<Seq<char>>) -> Seq<
    char,
>;

/// No attribute at all.
pub open spec fn no_attributes() -> Map<Seq<char>, Seq<char>> {
    Map::empty()
}

/// The texts one after the other, with a blank between each two.
pub open spec fn joined(parts: Seq<Seq<char>>) -> Seq<char>
    decreases parts.len(),
{
    if parts.len() == 0 {
        Seq::empty()
    } else if parts.len() == 1 {
        parts[0]
    } else {
        joined(parts.drop_last()) + seq![' '] + parts.last()
    }
}

/// The text of the command that stands for a step.
pub open spec fn step_text(step: Step) -> Seq<char> {
    match step {
        Step::MoveTo { x, y } => move_to_text(x as int, y as int),
        Step::LineBy { dx, dy } => line_by_text(dx as int, dy as int),
        Step::Close => "z"@,
    }
}

/// The texts of the commands that stand for the steps, in their order.
pub open spec fn step_texts(steps: Seq<Step>) -> Seq<Seq<char>> {
    Seq::new(steps.len(), |i: int| step_text(steps[i]))
}

/// The attributes of the path of an outline: no filling, the colour and
/// the width of the line, and the commands that trace the shape.
pub open spec fn outline_attributes(stroke: Stroke) -> Map<Seq<char>, Seq<char>> {
    no_attributes().insert("fill"@, "none"@).insert(
        "stroke"@,
        stroke.color.spec_name(),
    ).insert("stroke-width"@, number_text(stroke.width as int)).insert(
        "d"@,
        joined(step_texts(outline(stroke.shape))),
    )
}

/// The markup of the path of an outline, which holds no nodes.
pub open spec fn outline_markup(stroke: Stroke) -> Seq<char> {
    path_markup(outline_attributes(stroke), Seq::empty())
}

/// The attributes of a document as it is made.
pub open spec fn new_document_attributes() -> Map<Seq<char>, Seq<char>> {
    no_attributes().insert("xmlns"@, "http://www.w3.org/2000/svg"@)
}

/// The value that `svg` makes of four whole numbers for an attribute.
pub open spec fn numbers_text(a: int, b: int, c: int, d: int) -> Seq<char> {
    number_text(a) + seq![' '] + number_text(b) + seq![' '] + number_text(c) + seq![' '] + number_text(d)
}

/// The nodes of the document of a canvas: the path of each outline.
pub open spec fn canvas_nodes(objects: Seq<Stroke>) -> Seq<Seq<char>> {
    Seq::new(objects.len(), |i: int| outline_markup(objects[i]))
}

/// The markup of the document of a canvas: its nodes are the paths of the
/// outlines in their order, and its view box reaches from the origin to
/// the extent of the canvas.
pub open spec fn canvas_markup(v: DrawerView) -> Seq<char> {
    document_markup(
        new_document_attributes().insert("viewBox"@, numbers_text(0, 0, v.x_max, v.y_max)),
        canvas_nodes(v.objects),
    )
}

/// `Data::new` of `svg`: path data without a command.
#[verifier::external_body]
fn data_new() -> (data: Data)
    ensures
        data_commands(data) == Seq::<Seq<char>>::empty(),
{
    Data::new()
}

/// `Data::move_to` of `svg`: the data with one more command at its end,
/// the one that starts a line at the point.
#[verifier::external_body]
fn data_move_to(data: Data, x: i32, y: i32) -> (longer: Data)
    ensures
        data_commands(longer) == data_commands(data).push(move_to_text(x as int, y as int)),
{
    data.move_to((x, y))
}

/// `Data::line_by` of `svg`: the data with one more command at its end,
/// the one that goes on by the distance along each axis.
#[verifier::external_body]
fn data_line_by(data: Data, dx: i64, dy: i64) -> (longer: Data)
    ensures
        data_commands(longer) == data_commands(data).push(line_by_text(dx as int, dy as int)),
{
    data.line_by((dx, dy))
}

/// `Data::close` of `svg`: the data with one more command at its end, the
/// one that closes the line, which `svg` writes as `z`.
#[verifier::external_body]
fn data_close(data: Data) -> (longer: Data)
    ensures
        data_commands(longer) == data_commands(data).push("z"@),
{
    data.close()
}

/// `Path::new` of `svg`: a path element without attributes and nodes.
#[verifier::external_body]
fn path_new() -> (path: Path)
    ensures
        path_attributes(path) == no_attributes(),
        path_nodes(path).len() == 0,
{
    Path::new()
}

/// `Path::set` of `svg` with a text: the path with the text as the value
/// of the attribute, in place of a value that it had. The nodes stay.
#[verifier::external_body]
fn path_set_text(path: Path, name: &str, value: &str) -> (changed: Path)
    ensures
        path_attributes(changed) == path_attributes(path).insert(name@, value@),
        path_nodes(changed) == path_nodes(path),
{
    path.set(name, value)
}

/// `Path::set` of `svg` with a number: the path with what `svg` makes of
/// the number as the value of the attribute, in place of a value that it
/// had. The nodes stay.
#[verifier::external_body]
fn path_set_number(path: Path, name: &str, value: i32) -> (changed: Path)
    ensures
        path_attributes(changed) == path_attributes(path).insert(name@, number_text(value as int)),
        path_nodes(changed) == path_nodes(path),
{
    path.set(name, value)
}

/// `Path::set` of `svg` with path data: the path with the commands of the
/// data, a blank between each two, as the value of the attribute, in place
/// of a value that it had. The nodes stay.
#[verifier::external_body]
fn path_set_data(path: Path, name: &str, data: Data) -> (changed: Path)
    ensures
        path_attributes(changed) == path_attributes(path).insert(name@, joined(data_commands(data))),
        path_nodes(changed) == path_nodes(path),
{
    path.set(name, data)
}

/// `Document::new` of `svg`: a document without nodes, whose one
/// attribute names the namespace of SVG.
#[verifier::external_body]
fn document_new() -> (document: SVG)
    ensures
        document_attributes(document) == no_attributes().insert("xmlns"@, "http://www.w3.org/2000/svg"@),
        document_nodes(document) == Seq::<Seq<char>>::empty(),
{
    SVG::new()
}

/// `Document::add` of `svg`: the document with the path as one more node
/// at the end. The attributes stay.
#[verifier::external_body]
fn document_add(document: SVG, path: Path) -> (longer: SVG)
    ensures
        document_nodes(longer) == document_nodes(document).push(
            path_markup(path_attributes(path), path_nodes(path)),
        ),
        document_attributes(longer) == document_attributes(document),
{
    document.add(path)
}

/// `Document::set` of `svg` with four numbers: the document with what
/// `svg` makes of the numbers, a blank between each two, as the value of
/// the attribute, in place of a value that it had. The nodes stay.
#[verifier::external_body]
fn document_set_numbers(document: SVG, name: &str, a: i32, b: i32, c: i32, d: i32) -> (changed: SVG)
    ensures
        document_attributes(changed) == document_attributes(document).insert(
            name@,
            number_text(a as int) + seq![' '] + number_text(b as int) + seq![' '] + number_text(c as int)
                + seq![' '] + number_text(d as int),
        ),
        document_nodes(changed) == document_nodes(document),
{
    document.set(name, (a, b, c, d))
}

/// `to_string` on a document of `svg`: the markup of a document with the
/// attributes and the nodes that it holds.
#[verifier::external_body]
fn document_text(document: &SVG) -> (text: String)
    ensures
        text@ == document_markup(document_attributes(*document), document_nodes(*document)),
{
    document.to_string()
}

/// The path data that holds the steps in their order.
fn path_data(steps: &Vec<Step>) -> (data: Data)
    ensures
        data_commands(data) == step_texts(steps@),
{
    let mut data = data_new();
    let mut n: usize = 0;
    assert(data_commands(data) =~= step_texts(steps@.take(0)));
    while n < steps.len()
        invariant
            0 <= n <= steps.len(),
            data_commands(data) == step_texts(steps@.take(n as int)),
        decreases steps.len() - n,
    {
        let ghost before = data_commands(data);
        data = match steps[n] {
            Step::MoveTo { x, y } => data_move_to(data, x, y),
            Step::LineBy { dx, dy } => data_line_by(data, dx, dy),
            Step::Close => data_close(data),
        };
        assert(data_commands(data) == before.push(step_text(steps@[n as int])));
        n += 1;
        assert(data_commands(data) =~= step_texts(steps@.take(n as int)));
    }
    assert(steps@.take(n as int) =~= steps@);
    data
}

/// The path element of the outline: not filled, and drawn in the colour
/// and with the width of the stroke.
fn outline_path(stroke: &Stroke) -> (path: Path)
    ensures
        path_attributes(path) == outline_attributes(*stroke),
        path_nodes(path) == Seq::<(bool, Seq<char>)>::empty(),
{
    let steps = stroke.steps();
    let mut path = path_new();
    assert(path_nodes(path) =~= Seq::empty());
    path = path_set_text(path, "fill", "none");
    path = path_set_text(path, "stroke", stroke.color.name());
    path = path_set_number(path, "stroke-width", stroke.width);
    path = path_set_data(path, "d", path_data(&steps));
    path
}

impl Drawer {
    /// The markup of an SVG document that shows the outlines in the order
    /// in which they were added, on a canvas that reaches from the origin
    /// to `(x_max, y_max)`: each outline is a path node of the document,
    /// and the extent is its view box.
    pub fn draw(&self) -> (text: String)
        ensures
            text@ == canvas_markup(self@),
    {
        let mut document = document_new();
        let mut n: usize = 0;
        assert(document_nodes(document) =~= canvas_nodes(self.objects@.take(0)));
        while n < self.objects.len()
            invariant
                0 <= n <= self.objects.len(),
                document_attributes(document) == new_document_attributes(),
                document_nodes(document) == canvas_nodes(self.objects@.take(n as int)),
            decreases self.objects.len() - n,
        {
            let ghost before = document_nodes(document);
            document = document_add(document, outline_path(&self.objects[n]));
            assert(document_nodes(document) == before.push(outline_markup(self.objects@[n as int])));
            n += 1;
            assert(document_nodes(document) =~= canvas_nodes(self.objects@.take(n as int)));
        }
        assert(self.objects@.take(n as int) =~= self.objects@);
        document = document_set_numbers(document, "viewBox", 0, 0, self.x_max, self.y_max);
        document_text(&document)
    }
}

} // verus!
