//! The mathematical model of the dot-matrix surface.
//!
//! The drawing surface groups dots into character cells of 2x4 dots. A cell
//! remembers which of its eight dots are set (a bit mask), an optional plain
//! character, and whether the cell was last painted with a color. Every
//! drawing operation of the chart is a sequence of single-dot writes; this
//! module defines how such a sequence transforms the cell grid and proves the
//! properties the chart's contracts rest on: a pointwise description of the
//! final grid, and idempotence of replaying the same writes.

use vstd::prelude::*;
use crate::color::Color;

verus! {

/// The state of one character cell: the braille dot mask, the character shown
/// when no dot is set, whether the cell is painted, and with which color.
pub struct Cell {
    pub mask: u8,
    pub ch: char,
    pub colored: bool,
    pub color: Color,
}

/// The grid of cells, keyed by (column, row) of the character cell.
pub type CellGrid = Map<(int, int), Cell>;

/// A cell nothing was ever drawn into.
pub open spec fn blank_cell() -> Cell {
    Cell { mask: 0u8, ch: ' ', colored: false, color: Color::White }
}

/// One write of a single dot, with the color state it leaves in its cell.
pub struct DotWrite {
    pub x: int,
    pub y: int,
    pub colored: bool,
    pub color: Color,
}

/// The character cell a dot falls into.
pub open spec fn dot_cell(x: int, y: int) -> (int, int) {
    (x / 2, y / 4)
}

/// The braille mask bit of a dot within its 2x4 cell.
pub open spec fn pixel_bit(x: int, y: int) -> u8 {
    if y % 4 == 0 {
        if x % 2 == 0 { 1u8 } else { 8u8 }
    } else if y % 4 == 1 {
        if x % 2 == 0 { 2u8 } else { 16u8 }
    } else if y % 4 == 2 {
        if x % 2 == 0 { 4u8 } else { 32u8 }
    } else {
        if x % 2 == 0 { 64u8 } else { 128u8 }
    }
}

/// The effect of one dot write: the dot's bit joins its cell's mask, and the
/// cell's character and color state are replaced by the write's.
pub open spec fn write_dot(cells: CellGrid, w: DotWrite) -> CellGrid {
    let key = dot_cell(w.x, w.y);
    let prev = if cells.dom().contains(key) {
        cells[key]
    } else {
        blank_cell()
    };
    cells.insert(
        key,
        Cell { mask: prev.mask | pixel_bit(w.x, w.y), ch: ' ', colored: w.colored, color: w.color },
    )
}

/// The effect of a sequence of dot writes, applied left to right.
pub open spec fn apply_writes(cells: CellGrid, ws: Seq<DotWrite>) -> CellGrid
    decreases ws.len(),
{
    if ws.len() == 0 {
        cells
    } else {
        apply_writes(write_dot(cells, ws[0]), ws.drop_first())
    }
}

/// Whether some write of the sequence falls into the given cell.
pub open spec fn writes_touch(ws: Seq<DotWrite>, key: (int, int)) -> bool
    decreases ws.len(),
{
    ws.len() > 0 && (dot_cell(ws[0].x, ws[0].y) == key || writes_touch(ws.drop_first(), key))
}

/// The union of the mask bits the sequence contributes to the given cell.
pub open spec fn or_bits(ws: Seq<DotWrite>, key: (int, int)) -> u8
    decreases ws.len(),
{
    if ws.len() == 0 {
        0u8
    } else {
        (if dot_cell(ws[0].x, ws[0].y) == key {
            pixel_bit(ws[0].x, ws[0].y)
        } else {
            0u8
        }) | or_bits(ws.drop_first(), key)
    }
}

/// The last write of the sequence that falls into the given cell; it decides
/// the cell's final color state. Meaningful only when the sequence touches
/// the cell.
pub open spec fn last_touch(ws: Seq<DotWrite>, key: (int, int)) -> DotWrite
    decreases ws.len(),
{
    if ws.len() == 0 {
        DotWrite { x: 0, y: 0, colored: false, color: Color::White }
    } else if writes_touch(ws.drop_first(), key) {
        last_touch(ws.drop_first(), key)
    } else {
        ws[0]
    }
}

/// The mask a grid holds in a cell, taking an absent cell as blank.
pub open spec fn mask_at(cells: CellGrid, key: (int, int)) -> u8 {
    if cells.dom().contains(key) {
        cells[key].mask
    } else {
        0u8
    }
}

/// Whether the grid shows the dot at the given coordinates.
pub open spec fn has_dot(cells: CellGrid, x: int, y: int) -> bool {
    mask_at(cells, dot_cell(x, y)) & pixel_bit(x, y) != 0
}

/// Whether the sequence writes the dot at the given coordinates.
pub open spec fn writes_dot(ws: Seq<DotWrite>, x: int, y: int) -> bool
    decreases ws.len(),
{
    ws.len() > 0 && ((ws[0].x == x && ws[0].y == y) || writes_dot(ws.drop_first(), x, y))
}

/// Splitting a write sequence splits its application.
pub proof fn lemma_apply_concat(cells: CellGrid, a: Seq<DotWrite>, b: Seq<DotWrite>)
    ensures
        apply_writes(cells, a + b) == apply_writes(apply_writes(cells, a), b),
    decreases a.len(),
{
    if a.len() == 0 {
        assert(a + b =~= b);
    } else {
        assert((a + b).drop_first() =~= a.drop_first() + b);
        lemma_apply_concat(write_dot(cells, a[0]), a.drop_first(), b);
    }
}

/// What a write sequence leaves in one cell: the cell keeps every bit it had
/// and gains the bits the sequence contributes; its color state is the last
/// touching write's; untouched cells are unchanged.
pub proof fn lemma_apply_cell(cells: CellGrid, ws: Seq<DotWrite>, key: (int, int))
    ensures
        apply_writes(cells, ws).dom().contains(key) <==> (cells.dom().contains(key)
            || writes_touch(ws, key)),
        writes_touch(ws, key) ==> apply_writes(cells, ws)[key] == (Cell {
            mask: mask_at(cells, key) | or_bits(ws, key),
            ch: ' ',
            colored: last_touch(ws, key).colored,
            color: last_touch(ws, key).color,
        }),
        !writes_touch(ws, key) && cells.dom().contains(key) ==> apply_writes(cells, ws)[key]
            == cells[key],
    decreases ws.len(),
{
    if ws.len() == 0 {
    } else {
        let cells1 = write_dot(cells, ws[0]);
        lemma_apply_cell(cells1, ws.drop_first(), key);
        if dot_cell(ws[0].x, ws[0].y) == key {
            let b0 = pixel_bit(ws[0].x, ws[0].y);
            let m = mask_at(cells, key);
            let o = or_bits(ws.drop_first(), key);
            assert(mask_at(cells1, key) == m | b0);
            if !writes_touch(ws.drop_first(), key) {
                lemma_or_bits_untouched(ws.drop_first(), key);
            }
            assert((m | b0) | o == m | (b0 | o)) by (bit_vector);
            assert(m | (b0 | 0u8) == m | b0) by (bit_vector);
        } else {
            assert(mask_at(cells1, key) == mask_at(cells, key));
            let o = or_bits(ws.drop_first(), key);
            assert(0u8 | o == o) by (bit_vector);
        }
    }
}

/// A sequence that never touches a cell contributes no bits to it.
proof fn lemma_or_bits_untouched(ws: Seq<DotWrite>, key: (int, int))
    requires
        !writes_touch(ws, key),
    ensures
        or_bits(ws, key) == 0u8,
    decreases ws.len(),
{
    if ws.len() == 0 {
    } else {
        lemma_or_bits_untouched(ws.drop_first(), key);
        assert(0u8 | 0u8 == 0u8) by (bit_vector);
    }
}

/// Replaying the same write sequence changes nothing: a second application
/// leaves every cell as the first left it.
pub proof fn lemma_apply_idempotent(cells: CellGrid, ws: Seq<DotWrite>)
    ensures
        apply_writes(apply_writes(cells, ws), ws) == apply_writes(cells, ws),
{
    let m1 = apply_writes(cells, ws);
    let m2 = apply_writes(m1, ws);
    assert forall|key: (int, int)|
        #![trigger m2.dom().contains(key)]
        true implies (m2.dom().contains(key) <==> m1.dom().contains(key)) && (m1.dom().contains(
        key,
    ) ==> m2[key] == m1[key]) by {
        lemma_apply_cell(cells, ws, key);
        lemma_apply_cell(m1, ws, key);
        if writes_touch(ws, key) {
            let m = mask_at(cells, key);
            let o = or_bits(ws, key);
            assert((m | o) | o == m | o) by (bit_vector);
        }
    }
    assert(m2 =~= m1);
}

/// Which dots a write sequence leaves visible: every dot the grid already
/// showed, and every dot the sequence writes.
pub proof fn lemma_apply_has_dot(cells: CellGrid, ws: Seq<DotWrite>, x: int, y: int)
    ensures
        has_dot(apply_writes(cells, ws), x, y) <==> (has_dot(cells, x, y) || writes_dot(
            ws,
            x,
            y,
        )),
    decreases ws.len(),
{
    if ws.len() == 0 {
    } else {
        let cells1 = write_dot(cells, ws[0]);
        lemma_apply_has_dot(cells1, ws.drop_first(), x, y);
        let w0 = ws[0];
        let key = dot_cell(x, y);
        let b = pixel_bit(x, y);
        if dot_cell(w0.x, w0.y) == key {
            let b0 = pixel_bit(w0.x, w0.y);
            let m = mask_at(cells, key);
            assert(mask_at(cells1, key) == m | b0);
            assert(((m | b0) & b != 0) <==> ((m & b != 0) || (b0 & b != 0))) by (bit_vector);
            lemma_bits_same_dot(w0.x, w0.y, x, y);
        } else {
            assert(mask_at(cells1, key) == mask_at(cells, key));
        }
    }
}

/// Two dots of one cell share a mask bit exactly when they are the same dot.
proof fn lemma_bits_same_dot(x1: int, y1: int, x2: int, y2: int)
    requires
        dot_cell(x1, y1) == dot_cell(x2, y2),
    ensures
        (pixel_bit(x1, y1) & pixel_bit(x2, y2) != 0) <==> (x1 == x2 && y1 == y2),
{
    vstd::arithmetic::div_mod::lemma_fundamental_div_mod(x1, 2);
    vstd::arithmetic::div_mod::lemma_fundamental_div_mod(x2, 2);
    vstd::arithmetic::div_mod::lemma_fundamental_div_mod(y1, 4);
    vstd::arithmetic::div_mod::lemma_fundamental_div_mod(y2, 4);
    let b1 = pixel_bit(x1, y1);
    let b2 = pixel_bit(x2, y2);
    if x1 % 2 == x2 % 2 && y1 % 4 == y2 % 4 {
        assert(b1 == b2);
        assert(b1 & b1 != 0) by (bit_vector)
            requires
                b1 == 1u8 || b1 == 2u8 || b1 == 4u8 || b1 == 8u8 || b1 == 16u8 || b1 == 32u8
                    || b1 == 64u8 || b1 == 128u8,
        ;
    } else {
        assert(b1 != b2);
        assert(b1 & b2 == 0) by (bit_vector)
            requires
                b1 != b2,
                b1 == 1u8 || b1 == 2u8 || b1 == 4u8 || b1 == 8u8 || b1 == 16u8 || b1 == 32u8
                    || b1 == 64u8 || b1 == 128u8,
                b2 == 1u8 || b2 == 2u8 || b2 == 4u8 || b2 == 8u8 || b2 == 16u8 || b2 == 32u8
                    || b2 == 64u8 || b2 == 128u8,
        ;
    }
}

} // verus!

verus! {

/// Every write of the sequence lands within the given dot dimensions.
pub open spec fn writes_in_range(ws: Seq<DotWrite>, width: int, height: int) -> bool {
    forall|i: int|
        0 <= i < ws.len() ==> 0 <= (#[trigger] ws[i]).x <= width && 0 <= ws[i].y <= height
}

/// Every key of the grid addresses a cell within the stored dimensions.
pub open spec fn grid_in_range(cells: CellGrid, width: int, height: int) -> bool {
    forall|k: (int, int)| #[trigger]
        cells.dom().contains(k) ==> 0 <= k.0 <= width / 2 && 0 <= k.1 <= height / 4
}

/// Writes within the dot dimensions keep every cell key within the cell
/// dimensions.
pub proof fn lemma_apply_preserves_range(cells: CellGrid, ws: Seq<DotWrite>, width: int, height: int)
    requires
        grid_in_range(cells, width, height),
        writes_in_range(ws, width, height),
        width >= 0,
        height >= 0,
    ensures
        grid_in_range(apply_writes(cells, ws), width, height),
    decreases ws.len(),
{
    if ws.len() == 0 {
    } else {
        let w = ws[0];
        let cells1 = write_dot(cells, w);
        assert(grid_in_range(cells1, width, height)) by {
            vstd::arithmetic::div_mod::lemma_div_is_ordered(0, w.x, 2);
            vstd::arithmetic::div_mod::lemma_div_is_ordered(w.x, width, 2);
            vstd::arithmetic::div_mod::lemma_div_is_ordered(0, w.y, 4);
            vstd::arithmetic::div_mod::lemma_div_is_ordered(w.y, height, 4);
        }
        assert(writes_in_range(ws.drop_first(), width, height)) by {
            assert forall|i: int| 0 <= i < ws.drop_first().len() implies 0 <= (#[trigger] ws.drop_first()[i]).x
                <= width && 0 <= ws.drop_first()[i].y <= height by {
                assert(ws.drop_first()[i] == ws[i + 1]);
            }
        }
        lemma_apply_preserves_range(cells1, ws.drop_first(), width, height);
    }
}

} // verus!

verus! {

/// Applying a single write is that write.
pub proof fn lemma_apply_one(cells: CellGrid, w: DotWrite)
    ensures
        apply_writes(cells, seq![w]) == write_dot(cells, w),
{
    let s = seq![w];
    assert(s.len() == 1);
    assert(s[0] == w);
    assert(s.drop_first().len() == 0);
    assert(apply_writes(write_dot(cells, w), s.drop_first()) == write_dot(cells, w));
}

} // verus!
