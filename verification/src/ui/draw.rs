//! Drawing into a pane.

use vstd::prelude::*;
use crate::text::chars_of;
use crate::ui::pane::{Pane, PaneView};

verus! {

/// Index of the cell in row `row` and column `column` of a pane that is
/// `width` cells wide.
pub open spec fn cell(width: int, row: int, column: int) -> int {
    row * width + column
}

/// Whether the cell lies on the outline of the rectangle.
pub open spec fn on_outline(row: int, column: int, x: int, y: int, width: int, height: int) -> bool {
    &&& y <= row < y + height
    &&& x <= column < x + width
    &&& (row == y || row == y + height - 1 || column == x || column == x + width - 1)
}

pub proof fn lemma_cell_in_pane(width: int, height: int, row: int, column: int)
    requires
        0 <= row < height,
        0 <= column < width,
    ensures
        0 <= cell(width, row, column) < width * height,
{
    assert(row * width + column < width * height) by (nonlinear_arith)
        requires
            0 <= row < height,
            0 <= column < width,
    ;
    assert(0 <= row * width) by (nonlinear_arith)
        requires
            0 <= row,
            0 <= width,
    ;
}

pub proof fn lemma_cell_unique(width: int, row: int, column: int, other_row: int, other_column: int)
    requires
        0 <= column < width,
        0 <= other_column < width,
        cell(width, row, column) == cell(width, other_row, other_column),
    ensures
        row == other_row,
        column == other_column,
{
    assert(row == other_row) by (nonlinear_arith)
        requires
            0 <= column < width,
            0 <= other_column < width,
            row * width + column == other_row * width + other_column,
    ;
}

/// Draws the outline of a rectangle in the current background colour. The
/// rectangle has its upper left corner in column `x` and row `y`. It has to
/// be at least one cell wide and one cell high and to lie within the pane:
/// `x + width` may not exceed the width of the pane, nor `y + height` its
/// height. Rectangles that are empty or reach over the edge are not drawn
/// clipped; they are outside of what this function is for.
pub fn rect(pane: &mut Pane, x: usize, y: usize, width: usize, height: usize)
    requires
        old(pane).wf(),
        width >= 1,
        height >= 1,
        x + width <= old(pane).width,
        y + height <= old(pane).height,
    ensures
        final(pane).wf(),
        final(pane)@ == (PaneView { bg: final(pane).bg@, ..old(pane)@ }),
        forall|row: int, column: int|
            0 <= row < old(pane).height && 0 <= column < old(pane).width ==> final(pane).bg@[#[trigger] cell(
                old(pane).width as int,
                row,
                column,
            )] == (if on_outline(row, column, x as int, y as int, width as int, height as int) {
                old(pane).bg_current
            } else {
                old(pane).bg@[cell(old(pane).width as int, row, column)]
            }),
{
    let pw = pane.width;
    let ph = pane.height;
    let colour = pane.bg_current;
    let mut i: usize = x;
    while i < x + width
        invariant
            x <= i <= x + width,
            pw == pane.width,
            ph == pane.height,
            colour == pane.bg_current,
            pane.wf(),
            width >= 1,
            height >= 1,
            x + width <= pw,
            y + height <= ph,
            pane@ == (PaneView { bg: pane.bg@, ..old(pane)@ }),
            forall|row: int, column: int|
                0 <= row < ph && 0 <= column < pw ==> pane.bg@[#[trigger] cell(
                    pw as int,
                    row,
                    column,
                )] == (if (row == y || row == y + height - 1) && x <= column < i {
                    colour
                } else {
                    old(pane).bg@[cell(pw as int, row, column)]
                }),
        decreases x + width - i,
    {
        let ghost before = pane.bg@;
        proof {
            lemma_cell_in_pane(pw as int, ph as int, y as int, i as int);
            lemma_cell_in_pane(pw as int, ph as int, y + height - 1, i as int);
            assert(y * pw <= cell(pw as int, y as int, i as int));
            assert((y + height - 1) * pw <= cell(pw as int, y + height - 1, i as int));
        }
        let top: usize = y * pw + i;
        let bottom: usize = (y + height - 1) * pw + i;
        pane.bg.set(top, colour);
        pane.bg.set(bottom, colour);
        proof {
            assert forall|row: int, column: int| 0 <= row < ph && 0 <= column < pw implies pane.bg@[
            #[trigger] cell(pw as int, row, column)] == (if (row == y || row == y + height - 1) && x
                <= column < i + 1 {
                colour
            } else {
                old(pane).bg@[cell(pw as int, row, column)]
            }) by {
                lemma_cell_in_pane(pw as int, ph as int, row, column);
                if cell(pw as int, row, column) == top {
                    lemma_cell_unique(pw as int, row, column, y as int, i as int);
                } else if cell(pw as int, row, column) == bottom {
                    lemma_cell_unique(pw as int, row, column, y + height - 1, i as int);
                } else {
                    assert(pane.bg@[cell(pw as int, row, column)] == before[cell(
                        pw as int,
                        row,
                        column,
                    )]);
                }
            }
        }
        i += 1;
    }
    let mut r: usize = y + 1;
    while r < y + height
        invariant
            y + 1 <= r <= y + height,
            pw == pane.width,
            ph == pane.height,
            colour == pane.bg_current,
            pane.wf(),
            width >= 1,
            height >= 1,
            x + width <= pw,
            y + height <= ph,
            pane@ == (PaneView { bg: pane.bg@, ..old(pane)@ }),
            forall|row: int, column: int|
                0 <= row < ph && 0 <= column < pw ==> pane.bg@[#[trigger] cell(
                    pw as int,
                    row,
                    column,
                )] == (if ((row == y || row == y + height - 1) && x <= column < x + width) || (y + 1
                    <= row < r && (column == x || column == x + width - 1)) {
                    colour
                } else {
                    old(pane).bg@[cell(pw as int, row, column)]
                }),
        decreases y + height - r,
    {
        let ghost before = pane.bg@;
        proof {
            lemma_cell_in_pane(pw as int, ph as int, r as int, x as int);
            lemma_cell_in_pane(pw as int, ph as int, r as int, x + width - 1);
            assert(r * pw <= cell(pw as int, r as int, x as int));
        }
        let left: usize = r * pw + x;
        let right: usize = r * pw + x + width - 1;
        pane.bg.set(left, colour);
        pane.bg.set(right, colour);
        proof {
            assert forall|row: int, column: int| 0 <= row < ph && 0 <= column < pw implies pane.bg@[
            #[trigger] cell(pw as int, row, column)] == (if ((row == y || row == y + height - 1)
                && x <= column < x + width) || (y + 1 <= row < r + 1 && (column == x || column == x
                + width - 1)) {
                colour
            } else {
                old(pane).bg@[cell(pw as int, row, column)]
            }) by {
                lemma_cell_in_pane(pw as int, ph as int, row, column);
                if cell(pw as int, row, column) == left {
                    lemma_cell_unique(pw as int, row, column, r as int, x as int);
                } else if cell(pw as int, row, column) == right {
                    lemma_cell_unique(pw as int, row, column, r as int, x + width - 1);
                } else {
                    assert(pane.bg@[cell(pw as int, row, column)] == before[cell(
                        pw as int,
                        row,
                        column,
                    )]);
                }
            }
        }
        r += 1;
    }
}

/// A pane while text is typed into it, and where the next character goes.
pub struct Typing {
    pub pane: PaneView,
    pub x: int,
    pub y: int,
}

/// The pane with the character and the current colours in cell `at`.
pub open spec fn put(pane: PaneView, at: int, c: char) -> PaneView {
    PaneView {
        text: pane.text.update(at, c),
        fg: pane.fg.update(at, pane.fg_current),
        bg: pane.bg.update(at, pane.bg_current),
        ..pane
    }
}

/// What typing `chars` makes of a pane, starting in column `left` and row
/// `top`. A line feed goes to column `left` of the next row. Any other
/// character goes into the cell at the current position, if the pane has
/// such a cell, and moves the position one column on.
pub open spec fn typed(pane: PaneView, left: int, top: int, chars: Seq<char>) -> Typing
    decreases chars.len(),
{
    if chars.len() == 0 {
        Typing { pane, x: left, y: top }
    } else {
        let before = typed(pane, left, top, chars.drop_last());
        let c = chars.last();
        if c == '\n' {
            Typing { pane: before.pane, x: left, y: before.y + 1 }
        } else if before.x < pane.width && before.y < pane.height {
            Typing {
                pane: put(before.pane, before.x + before.y * pane.width, c),
                x: before.x + 1,
                y: before.y,
            }
        } else {
            Typing { pane: before.pane, x: before.x + 1, y: before.y }
        }
    }
}

/// Every cell of the pane has its character and its two colours.
pub open spec fn sized(pane: PaneView) -> bool {
    &&& pane.text.len() == pane.width * pane.height
    &&& pane.fg.len() == pane.width * pane.height
    &&& pane.bg.len() == pane.width * pane.height
}

/// Typing leaves the size of a pane and its current colours as they are.
pub proof fn lemma_typed_keeps(pane: PaneView, left: int, top: int, chars: Seq<char>)
    requires
        0 <= left,
        0 <= top,
        sized(pane),
    ensures
        typed(pane, left, top, chars).pane.width == pane.width,
        typed(pane, left, top, chars).pane.height == pane.height,
        typed(pane, left, top, chars).pane.fg_current == pane.fg_current,
        typed(pane, left, top, chars).pane.bg_current == pane.bg_current,
        sized(typed(pane, left, top, chars).pane),
        typed(pane, left, top, chars).x >= 0,
        typed(pane, left, top, chars).y >= 0,
    decreases chars.len(),
{
    if chars.len() > 0 {
        lemma_typed_keeps(pane, left, top, chars.drop_last());
        let before = typed(pane, left, top, chars.drop_last());
        if before.x < pane.width && before.y < pane.height {
            lemma_cell_in_pane(pane.width as int, pane.height as int, before.y, before.x);
            assert(cell(pane.width as int, before.y, before.x) == before.x + before.y
                * pane.width);
        }
    }
}

/// Types `text` into the pane in the current colours, starting in column
/// `x` and row `y`. What falls outside the pane is left out.
pub fn text(pane: &mut Pane, x: usize, y: usize, text: &str)
    requires
        old(pane).wf(),
    ensures
        final(pane).wf(),
        final(pane)@ == typed(old(pane)@, x as int, y as int, text@).pane,
{
    let chars = chars_of(text);
    let ghost start = pane@;
    let mut x_pos: usize = x;
    let mut y_pos: usize = y;
    let mut k: usize = 0;
    proof {
        assert(chars@.take(0) == Seq::<char>::empty());
    }
    while k < chars.len()
        invariant
            k <= chars.len(),
            start == old(pane)@,
            sized(start),
            pane.wf(),
            pane.width == start.width,
            pane.height == start.height,
            pane@ == typed(start, x as int, y as int, chars@.take(k as int)).pane,
            x_pos == (if typed(start, x as int, y as int, chars@.take(k as int)).x < usize::MAX {
                typed(start, x as int, y as int, chars@.take(k as int)).x
            } else {
                usize::MAX as int
            }),
            y_pos == (if typed(start, x as int, y as int, chars@.take(k as int)).y < usize::MAX {
                typed(start, x as int, y as int, chars@.take(k as int)).y
            } else {
                usize::MAX as int
            }),
        decreases chars.len() - k,
    {
        let c = chars[k];
        proof {
            assert(chars@.take(k + 1).drop_last() == chars@.take(k as int));
            assert(chars@.take(k + 1).last() == c);
            lemma_typed_keeps(start, x as int, y as int, chars@.take(k as int));
        }
        if c == '\n' {
            if y_pos < usize::MAX {
                y_pos += 1;
            }
            x_pos = x;
        } else {
            if x_pos < pane.width && y_pos < pane.height {
                proof {
                    lemma_cell_in_pane(
                        pane.width as int,
                        pane.height as int,
                        y_pos as int,
                        x_pos as int,
                    );
                    assert(y_pos * pane.width <= cell(pane.width as int, y_pos as int, x_pos as int));
                    assert(y_pos * pane.width + x_pos == x_pos + y_pos * pane.width);
                }
                let pos: usize = x_pos + y_pos * pane.width;
                pane.text.set(pos, c);
                pane.fg.set(pos, pane.fg_current);
                pane.bg.set(pos, pane.bg_current);
            }
            if x_pos < usize::MAX {
                x_pos += 1;
            }
        }
        k += 1;
    }
    proof {
        assert(chars@.take(chars.len() as int) == chars@);
    }
}

} // verus!
