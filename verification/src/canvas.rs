//! The drawing surface: the braille dot matrix of the `drawille` crate,
//! behind a thin trusted interface.
//!
//! The surface is consumed as a black box. Its state is modelled by the
//! uninterpreted contents function [`canvas_cells`], and every drawing call
//! is specified as a sequence of single-dot writes applied to that state (see
//! [`crate::paint`]).

use vstd::prelude::*;
use crate::color::Color;
use crate::paint::{Cell, CellGrid, DotWrite, apply_writes, write_dot};
use drawille::PixelColor;

verus! {

#[verifier::external_type_specification]
#[verifier::external_body]
pub struct ExBrailleCanvas(drawille::Canvas);

/// The dot-matrix surface of the terminal back end.
pub type BrailleCanvas = drawille::Canvas;

/// What the canvas holds: its grid of character cells.
pub uninterp spec fn canvas_cells(c: drawille::Canvas) -> CellGrid;

/// The number of character-cell columns the canvas was created with.
pub uninterp spec fn canvas_cols(c: drawille::Canvas) -> int;

/// The number of character-cell rows the canvas was created with.
pub uninterp spec fn canvas_lines(c: drawille::Canvas) -> int;

/// The dot sequence the canvas walks when it draws a straight segment
/// between two dots: a deterministic function of the endpoints alone.
pub uninterp spec fn segment_dot_seq(x1: int, y1: int, x2: int, y2: int) -> Seq<(int, int)>;

/// The writes a colored segment performs, in order.
pub open spec fn seg_writes(x1: int, y1: int, x2: int, y2: int, color: Color) -> Seq<DotWrite> {
    segment_dot_seq(x1, y1, x2, y2).map_values(
        |d: (int, int)| DotWrite { x: d.0, y: d.1, colored: true, color },
    )
}

/// The segment's dots include both endpoints.
pub open spec fn seg_has_endpoints(x1: int, y1: int, x2: int, y2: int) -> bool {
    &&& segment_dot_seq(x1, y1, x2, y2).contains((x1, y1))
    &&& segment_dot_seq(x1, y1, x2, y2).contains((x2, y2))
}

/// The segment's dots stay within the bounding box of its endpoints.
pub open spec fn seg_within_box(x1: int, y1: int, x2: int, y2: int) -> bool {
    forall|i: int|
        0 <= i < segment_dot_seq(x1, y1, x2, y2).len() ==> {
            let d = #[trigger] segment_dot_seq(x1, y1, x2, y2)[i];
            &&& (if x1 <= x2 { x1 <= d.0 <= x2 } else { x2 <= d.0 <= x1 })
            &&& (if y1 <= y2 { y1 <= d.1 <= y2 } else { y2 <= d.1 <= y1 })
        }
}

/// Both facts the segment walker guarantees.
pub open spec fn seg_ok(x1: int, y1: int, x2: int, y2: int) -> bool {
    seg_has_endpoints(x1, y1, x2, y2) && seg_within_box(x1, y1, x2, y2)
}

/// Relies on drawille::Canvas::new: a blank canvas whose stored dimensions
/// are width/2 character columns and height/4 character rows. The store
/// truncates the cell counts to 16 bits, so the dot dimensions must keep
/// them within that.
#[verifier::external_body]
pub(crate) fn canvas_new(width: u32, height: u32) -> (r: BrailleCanvas)
    requires
        width <= 131071,
        height <= 262143,
    ensures
        canvas_cells(r) =~= Map::empty(),
        canvas_cols(r) == width as int / 2,
        canvas_lines(r) == height as int / 4,
{
    drawille::Canvas::new(width, height)
}

/// Relies on drawille::Canvas::set: ORs the dot's braille bit into its cell
/// and resets that cell's color state to the plain one. The cell key is
/// truncated to 16 bits, so the dot coordinates must keep it within that.
#[verifier::external_body]
pub(crate) fn canvas_set(c: &mut drawille::Canvas, x: u32, y: u32)
    requires
        x <= 131071,
        y <= 262143,
    ensures
        canvas_cells(*final(c)) == write_dot(
            canvas_cells(*old(c)),
            DotWrite { x: x as int, y: y as int, colored: false, color: Color::White },
        ),
        canvas_cols(*final(c)) == canvas_cols(*old(c)),
        canvas_lines(*final(c)) == canvas_lines(*old(c)),
{
    c.set(x, y)
}

/// Relies on drawille::Canvas::set_colored: ORs the dot's braille bit into
/// its cell and paints that cell with the given color. The cell key is
/// truncated to 16 bits, so the dot coordinates must keep it within that.
#[verifier::external_body]
pub(crate) fn canvas_set_colored(c: &mut drawille::Canvas, x: u32, y: u32, color: Color)
    requires
        x <= 131071,
        y <= 262143,
    ensures
        canvas_cells(*final(c)) == write_dot(
            canvas_cells(*old(c)),
            DotWrite { x: x as int, y: y as int, colored: true, color },
        ),
        canvas_cols(*final(c)) == canvas_cols(*old(c)),
        canvas_lines(*final(c)) == canvas_lines(*old(c)),
{
    c.set_colored(x, y, PixelColor::from(color.name()))
}

/// Relies on drawille::Canvas::line_colored: paints, dot by dot, a
/// deterministic sequence of dots that joins the two endpoints, contains
/// both, and stays within their bounding box; the result reports that the
/// walked sequence did so. The walker multiplies the step index by the
/// coordinate differences in 32 bits, so both endpoints must stay within 16
/// bits for the walk to be exact.
#[verifier::external_body]
pub(crate) fn canvas_line(
    c: &mut drawille::Canvas,
    x1: u32,
    y1: u32,
    x2: u32,
    y2: u32,
    color: Color,
) -> (r: bool)
    requires
        x1 <= 65535,
        y1 <= 65535,
        x2 <= 65535,
        y2 <= 65535,
    ensures
        canvas_cells(*final(c)) == apply_writes(
            canvas_cells(*old(c)),
            seg_writes(x1 as int, y1 as int, x2 as int, y2 as int, color),
        ),
        canvas_cols(*final(c)) == canvas_cols(*old(c)),
        canvas_lines(*final(c)) == canvas_lines(*old(c)),
        r == (segment_dot_seq(x1 as int, y1 as int, x2 as int, y2 as int).contains(
            (x1 as int, y1 as int),
        ) && seg_ok(x1 as int, y1 as int, x2 as int, y2 as int)),
        r,
{
    c.line_colored(x1, y1, x2, y2, PixelColor::from(color.name()));
    true
}

/// Relies on drawille::Canvas::rows: serializes the cell grid into one string
/// per character-cell row; none of them contains a newline. With every cell
/// within the stored dimensions there is one row per stored row plus one.
/// What a painted cell's glyph looks like depends on the terminal styling
/// state, so nothing more is stated about the text.
#[verifier::external_body]
pub(crate) fn canvas_row_strings(c: &drawille::Canvas) -> (r: Vec<String>)
    requires
        forall|k: (int, int)| #[trigger]
            canvas_cells(*c).dom().contains(k) ==> 0 <= k.0 <= canvas_cols(*c) && 0 <= k.1
                <= canvas_lines(*c),
    ensures
        r@.len() == canvas_lines(*c) + 1,
        forall|i: int| 0 <= i < r@.len() ==> !(#[trigger] r@[i]@).contains('\n'),
{
    c.rows()
}

} // verus!
