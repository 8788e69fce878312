//! Walks the column and row indices of a rectangle of cells.

use vstd::prelude::*;

verus! {

/// How many cells the rectangle of the columns `left..=right` and the rows
/// `bottom..=top` has. A rectangle whose edges are inverted has none.
pub open spec fn rect_len(left: int, bottom: int, right: int, top: int) -> int {
    if left <= right && bottom <= top {
        (right - left + 1) * (top - bottom + 1)
    } else {
        0
    }
}

/// The (column, row) of the cell that a walk over the rectangle reaches in
/// step `k`, counted from 0. Each row is walked from `left` to `right`; the
/// rows follow from `bottom` upwards if `y_up`, else from `top` downwards.
pub open spec fn rect_cell(
    left: int,
    bottom: int,
    right: int,
    top: int,
    y_up: bool,
    k: int,
) -> (usize, usize) {
    let width = right - left + 1;
    (
        (left + k % width) as usize,
        if y_up {
            (bottom + k / width) as usize
        } else {
            (top - k / width) as usize
        },
    )
}

/// The cells of the rectangle in the order of the walk.
pub open spec fn rect_coords(left: int, bottom: int, right: int, top: int, y_up: bool) -> Seq<
    (usize, usize),
> {
    Seq::new(
        rect_len(left, bottom, right, top) as nat,
        |k: int| rect_cell(left, bottom, right, top, y_up, k),
    )
}

/// The step of the walk that stands at column `col` of row `row`.
pub open spec fn rect_step(
    left: int,
    bottom: int,
    right: int,
    top: int,
    y_up: bool,
    col: int,
    row: int,
) -> int {
    let rows_done = if y_up {
        row - bottom
    } else {
        top - row
    };
    rows_done * (right - left + 1) + (col - left)
}

/// A cell of the rectangle is reached in exactly the step that `rect_step`
/// gives for it.
pub proof fn lemma_rect_step(
    left: int,
    bottom: int,
    right: int,
    top: int,
    y_up: bool,
    col: int,
    row: int,
)
    requires
        0 <= left <= col <= right <= usize::MAX,
        0 <= bottom <= row <= top <= usize::MAX,
    ensures
        0 <= rect_step(left, bottom, right, top, y_up, col, row) < rect_len(
            left,
            bottom,
            right,
            top,
        ),
        rect_cell(
            left,
            bottom,
            right,
            top,
            y_up,
            rect_step(left, bottom, right, top, y_up, col, row),
        ) == (col as usize, row as usize),
{
    let width = right - left + 1;
    let height = top - bottom + 1;
    let rows_done = if y_up {
        row - bottom
    } else {
        top - row
    };
    let k = rows_done * width + (col - left);
    vstd::arithmetic::div_mod::lemma_fundamental_div_mod_converse(
        k,
        width,
        rows_done,
        col - left,
    );
    assert(0 <= rows_done * width && rows_done * width + width <= height * width)
        by (nonlinear_arith)
        requires
            0 <= rows_done < height,
            0 < width,
    ;
    assert(height * width == width * height) by (nonlinear_arith);
}

/// Every step of the walk stays inside the rectangle.
pub proof fn lemma_rect_cell_inside(
    left: int,
    bottom: int,
    right: int,
    top: int,
    y_up: bool,
    k: int,
)
    requires
        0 <= left <= right <= usize::MAX,
        0 <= bottom <= top <= usize::MAX,
        0 <= k < rect_len(left, bottom, right, top),
    ensures
        left <= rect_cell(left, bottom, right, top, y_up, k).0 <= right,
        bottom <= rect_cell(left, bottom, right, top, y_up, k).1 <= top,
        rect_step(
            left,
            bottom,
            right,
            top,
            y_up,
            rect_cell(left, bottom, right, top, y_up, k).0 as int,
            rect_cell(left, bottom, right, top, y_up, k).1 as int,
        ) == k,
{
    let width = right - left + 1;
    let height = top - bottom + 1;
    vstd::arithmetic::div_mod::lemma_fundamental_div_mod(k, width);
    vstd::arithmetic::div_mod::lemma_mod_bound(k, width);
    assert(0 <= k / width < height) by (nonlinear_arith)
        requires
            0 <= k < width * height,
            0 < width,
    ;
    assert(width * (k / width) == (k / width) * width) by (nonlinear_arith);
}

/// No cell is reached twice: two steps of the walk that reach the same
/// cell are the same step. With `lemma_rect_step`, by which every cell of
/// the rectangle is reached, the walk visits each cell exactly once.
pub proof fn lemma_rect_cells_differ(
    left: int,
    bottom: int,
    right: int,
    top: int,
    y_up: bool,
    j: int,
    k: int,
)
    requires
        0 <= left <= right <= usize::MAX,
        0 <= bottom <= top <= usize::MAX,
        0 <= j < rect_len(left, bottom, right, top),
        0 <= k < rect_len(left, bottom, right, top),
        rect_cell(left, bottom, right, top, y_up, j) == rect_cell(left, bottom, right, top, y_up, k),
    ensures
        j == k,
{
    lemma_rect_cell_inside(left, bottom, right, top, y_up, j);
    lemma_rect_cell_inside(left, bottom, right, top, y_up, k);
}

/// The walk from the top downwards reaches in each step the column that the
/// walk from the bottom upwards reaches, in the row that lies as far below
/// the top as that one lies above the bottom.
pub proof fn lemma_rect_rows_reversed(left: int, bottom: int, right: int, top: int, k: int)
    requires
        0 <= left <= right <= usize::MAX,
        0 <= bottom <= top <= usize::MAX,
        0 <= k < rect_len(left, bottom, right, top),
    ensures
        rect_cell(left, bottom, right, top, false, k).0 == rect_cell(
            left,
            bottom,
            right,
            top,
            true,
            k,
        ).0,
        rect_cell(left, bottom, right, top, false, k).1 + rect_cell(
            left,
            bottom,
            right,
            top,
            true,
            k,
        ).1 == top + bottom,
{
    let width = right - left + 1;
    let height = top - bottom + 1;
    assert(0 <= k / width < height) by (nonlinear_arith)
        requires
            0 <= k < width * height,
            0 < width,
    ;
}

/// Where the cursor of a walk stands after one step: one column to the
/// right, or at the left end of the row that follows. In the last row the
/// cursor only returns to the left end.
pub open spec fn next_cursor(
    bounds: (usize, usize, usize, usize),
    y_up: bool,
    cursor: (usize, usize),
) -> (usize, usize) {
    if cursor.0 < bounds.2 {
        ((cursor.0 + 1) as usize, cursor.1)
    } else if y_up {
        if cursor.1 < bounds.3 {
            (bounds.0, (cursor.1 + 1) as usize)
        } else {
            (bounds.0, cursor.1)
        }
    } else {
        if cursor.1 == bounds.1 {
            (bounds.0, cursor.1)
        } else {
            (bounds.0, (cursor.1 - 1) as usize)
        }
    }
}

/// Yields the (column, row) pair of each cell of a rectangle of cells,
/// row after row, each row from its left end to its right end.
#[derive(Debug)]
pub struct IterCoords {
    pub(crate) y_up: bool,
    pub(crate) top: usize,
    pub(crate) bottom: usize,
    pub(crate) left: usize,
    pub(crate) right: usize,
    pub(crate) current_row: usize,
    pub(crate) current_col: usize,
    pub(crate) done: bool,
}

impl Clone for IterCoords {
    /// A walk that stands where this one stands and goes on by itself.
    fn clone(&self) -> (r: Self)
        ensures
            r == *self,
    {
        IterCoords {
            y_up: self.y_up,
            top: self.top,
            bottom: self.bottom,
            left: self.left,
            right: self.right,
            current_row: self.current_row,
            current_col: self.current_col,
            done: self.done,
        }
    }
}

impl View for IterCoords {
    type V = Seq<(usize, usize)>;

    /// The cells that are still to come, in the order in which they come.
    open spec fn view(&self) -> Seq<(usize, usize)> {
        self.remaining()
    }
}

impl IterCoords {
    /// The walk without the cells that have been yielded.
    pub open(crate) spec fn remaining(&self) -> Seq<(usize, usize)> {
        rect_coords(
            self.left as int,
            self.bottom as int,
            self.right as int,
            self.top as int,
            self.y_up,
        ).skip(self.position())
    }

    /// The edges of the rectangle: (left column, bottom row, right column,
    /// top row).
    pub open(crate) spec fn bounds(&self) -> (usize, usize, usize, usize) {
        (self.left, self.bottom, self.right, self.top)
    }

    /// Whether the rows come from the bottom upwards.
    pub open(crate) spec fn ascending(&self) -> bool {
        self.y_up
    }

    /// Where the cursor stands: (column, row).
    pub open(crate) spec fn cursor(&self) -> (usize, usize) {
        (self.current_col, self.current_row)
    }

    /// Whether the walk has ended.
    pub open(crate) spec fn finished(&self) -> bool {
        self.done
    }

    /// How many cells have been yielded.
    pub open(crate) spec fn position(&self) -> int {
        if self.done {
            rect_len(self.left as int, self.bottom as int, self.right as int, self.top as int)
        } else {
            rect_step(
                self.left as int,
                self.bottom as int,
                self.right as int,
                self.top as int,
                self.y_up,
                self.current_col as int,
                self.current_row as int,
            )
        }
    }

    /// The invariant of the walk: until it has ended, the cursor is inside
    /// the rectangle.
    pub open(crate) spec fn inv(&self) -> bool {
        !self.done ==> self.left <= self.current_col <= self.right && self.bottom
            <= self.current_row <= self.top
    }

    /// Whether nothing has been yielded yet and the direction is still the
    /// one that the walk was made with.
    pub open(crate) spec fn untouched(&self) -> bool {
        &&& self.y_up
        &&& self.current_col == self.left
        &&& self.current_row == self.bottom
        &&& self.done <==> (self.left > self.right || self.bottom > self.top)
    }

    /// While the walk has not ended, the cursor stands on the cell that
    /// comes next.
    pub proof fn lemma_cursor_is_next(&self)
        requires
            self.inv(),
        ensures
            self.finished() <==> self@.len() == 0,
            !self.finished() ==> self@[0] == self.cursor(),
            self@ == rect_coords(
                self.bounds().0 as int,
                self.bounds().1 as int,
                self.bounds().2 as int,
                self.bounds().3 as int,
                self.ascending(),
            ).skip(self.position()),
            0 <= self.position() <= rect_len(
                self.bounds().0 as int,
                self.bounds().1 as int,
                self.bounds().2 as int,
                self.bounds().3 as int,
            ),
    {
        if !self.done {
            lemma_rect_step(
                self.left as int,
                self.bottom as int,
                self.right as int,
                self.top as int,
                self.y_up,
                self.current_col as int,
                self.current_row as int,
            );
        }
    }

    /// A walk over the columns `left..=right` and the rows `bottom..=top`,
    /// from the bottom row upwards. It is empty if the edges are inverted.
    pub(crate) fn new(left: usize, bottom: usize, right: usize, top: usize) -> (r: Self)
        ensures
            r.inv(),
            r.untouched(),
            r.ascending(),
            r.bounds() == (left, bottom, right, top),
            r@ == rect_coords(left as int, bottom as int, right as int, top as int, true),
    {
        let r = IterCoords {
            y_up: true,
            top,
            bottom,
            left,
            right,
            current_row: bottom,
            current_col: left,
            done: left > right || bottom > top,
        };
        proof {
            r.lemma_cursor_is_next();
            assert(r.position() == 0) by (nonlinear_arith)
                requires
                    r.position() == if r.done {
                        0
                    } else {
                        0 * (right - left + 1) + (left - left)
                    },
            ;
            assert(r@ =~= rect_coords(left as int, bottom as int, right as int, top as int, true));
        }
        r
    }

    /// Inverts the direction in which the rows follow each other: the walk
    /// then starts in the top row and moves downwards. Only a walk that has
    /// yielded nothing yet can be turned around.
    pub fn y_down(self) -> (r: Self)
        requires
            self.inv(),
            self.untouched(),
        ensures
            r.inv(),
            !r.ascending(),
            r.bounds() == self.bounds(),
            r@ == rect_coords(
                self.bounds().0 as int,
                self.bounds().1 as int,
                self.bounds().2 as int,
                self.bounds().3 as int,
                false,
            ),
    {
        let top = self.top;
        let r = Self { y_up: false, current_row: top, ..self };
        proof {
            r.lemma_cursor_is_next();
            assert(r.position() == 0) by (nonlinear_arith)
                requires
                    r.position() == if r.done {
                        0
                    } else {
                        0 * (r.right - r.left + 1) + (r.left - r.left)
                    },
            ;
            assert(r@ =~= rect_coords(
                self.bounds().0 as int,
                self.bounds().1 as int,
                self.bounds().2 as int,
                self.bounds().3 as int,
                false,
            ));
        }
        r
    }

    /// Moves the cursor to the cell that comes next: one column to the
    /// right, or to the left end of the row that follows, or to the end of
    /// the walk. A walk that has ended stays as it is.
    pub fn advance(&mut self)
        requires
            old(self).inv(),
        ensures
            final(self).inv(),
            final(self).bounds() == old(self).bounds(),
            final(self).ascending() == old(self).ascending(),
            old(self)@.len() == 0 ==> *final(self) == *old(self),
            old(self)@.len() > 0 ==> final(self)@ == old(self)@.skip(1),
            old(self)@.len() > 0 ==> final(self).cursor() == next_cursor(
                old(self).bounds(),
                old(self).ascending(),
                old(self).cursor(),
            ),
    {
        proof {
            self.lemma_cursor_is_next();
        }
        if self.done {
            return ;
        }
        let ghost width = self.right - self.left + 1;
        let ghost height = self.top - self.bottom + 1;
        let ghost rows_done = if self.y_up {
            self.current_row - self.bottom
        } else {
            self.top - self.current_row
        };
        // Advance column
        if self.current_col < self.right {
            self.current_col += 1;
        } else {
            // Wrap around to the next row if necessary
            self.current_col = self.left;
            proof {
                assert((rows_done + 1) * width == rows_done * width + width) by (nonlinear_arith);
                assert(height * width == width * height) by (nonlinear_arith);
            }
            if self.y_up {
                if self.current_row < self.top {
                    self.current_row += 1;
                } else {
                    self.done = true;
                }
            } else {
                if self.current_row == self.bottom {
                    self.done = true;
                } else {
                    self.current_row -= 1;
                }
            }
        }
        proof {
            assert(self.position() == old(self).position() + 1);
            assert(self@ =~= old(self)@.skip(1));
        }
    }

    /// Where a cursor that stands at `cursor` in this walk's rectangle is
    /// after one step.
    pub(crate) fn cursor_after(&self, cursor: (usize, usize)) -> (r: (usize, usize))
        requires
            self.bounds().1 <= cursor.1,
        ensures
            r == next_cursor(self.bounds(), self.ascending(), cursor),
    {
        if cursor.0 < self.right {
            (cursor.0 + 1, cursor.1)
        } else if self.y_up {
            if cursor.1 < self.top {
                (self.left, cursor.1 + 1)
            } else {
                (self.left, cursor.1)
            }
        } else {
            if cursor.1 == self.bottom {
                (self.left, cursor.1)
            } else {
                (self.left, cursor.1 - 1)
            }
        }
    }

    /// Yields the cell under the cursor and moves on, until the walk has
    /// ended.
    pub fn next(&mut self) -> (r: Option<(usize, usize)>)
        requires
            old(self).inv(),
        ensures
            final(self).inv(),
            final(self).bounds() == old(self).bounds(),
            final(self).ascending() == old(self).ascending(),
            old(self)@.len() == 0 ==> r is None && final(self)@ == old(self)@,
            old(self)@.len() > 0 ==> r == Some(old(self)@[0]) && final(self)@ == old(self)@.skip(1),
    {
        proof {
            self.lemma_cursor_is_next();
        }
        if self.done {
            return None;
        }
        let result = (self.current_col, self.current_row);
        self.advance();
        Some(result)
    }
}

} // verus!
