//! Walks the cells of a grid that a rectangle overlaps.

use vstd::prelude::*;

use crate::iter_coords::{next_cursor, rect_coords, IterCoords};
use crate::iter_with_coords::IterWithCoords;
use crate::Grid;

verus! {

/// Yields references to the cells of one layer of a grid that overlap a
/// rectangle, row after row, each row from its left end to its right end.
#[derive(Debug)]
pub struct IterGridRect<'a, V> {
    pub(crate) layer: usize,
    pub(crate) grid: &'a Grid<V>,
    pub(crate) coords: IterCoords,
}

impl<'a, V> View for IterGridRect<'a, V> {
    type V = Seq<(usize, usize)>;

    /// The (column, row) of each cell that is still to come, in the order in
    /// which they come. Nothing comes from a layer that the grid lacks.
    open spec fn view(&self) -> Seq<(usize, usize)> {
        self.remaining()
    }
}

impl<'a, V> IterGridRect<'a, V> {
    /// The rest of the walk, or nothing where the grid lacks the layer.
    pub open(crate) spec fn remaining(&self) -> Seq<(usize, usize)> {
        if self.layer < self.grid.layers() {
            self.coords@
        } else {
            Seq::empty()
        }
    }

    /// The grid whose cells are yielded.
    pub open(crate) spec fn grid(&self) -> Grid<V> {
        *self.grid
    }

    /// The layer whose cells are yielded.
    pub open(crate) spec fn layer(&self) -> usize {
        self.layer
    }

    /// The walk over the columns and rows of the rectangle.
    pub open(crate) spec fn walk(&self) -> IterCoords {
        self.coords
    }

    /// The invariant of the iterator: the grid is well formed and the
    /// rectangle lies inside it.
    pub open(crate) spec fn inv(&self) -> bool {
        &&& self.grid.wf()
        &&& self.coords.inv()
        &&& self.coords.bounds().2 < self.grid.columns()
        &&& self.coords.bounds().3 < self.grid.rows()
    }

    /// The values that are still to come, in the order in which they come.
    pub open spec fn values(&self) -> Seq<V> {
        self.grid().values_at(self.layer() as int, self@)
    }

    /// What is still to come is the rest of the walk, unless the grid lacks
    /// the layer, and every cell of it exists.
    pub proof fn lemma_view(&self)
        requires
            self.inv(),
        ensures
            self@ == if self.layer() < self.grid().layers() {
                self.walk()@
            } else {
                Seq::empty()
            },
            self.grid().wf(),
            self.walk().inv(),
            forall|k: int|
                0 <= k < self@.len() ==> self.grid().has_cell(
                    (#[trigger] self@[k]).0 as int,
                    self@[k].1 as int,
                    self.layer() as int,
                ),
    {
        self.coords.lemma_cursor_is_next();
        assert forall|k: int| 0 <= k < self@.len() implies self.grid().has_cell(
            (#[trigger] self@[k]).0 as int,
            self@[k].1 as int,
            self.layer() as int,
        ) by {
            let b = self.coords.bounds();
            crate::iter_coords::lemma_rect_cell_inside(
                b.0 as int,
                b.1 as int,
                b.2 as int,
                b.3 as int,
                self.coords.ascending(),
                self.coords.position() + k,
            );
            let col = self@[k].0 as int;
            let layer = self.layer as int;
            assert(self.grid@[layer].len() == self.grid.columns());
            assert(self.grid@[layer][col].len() == self.grid.rows());
        }
    }

    /// An iterator over the cells of `layer` in the columns `left..=right`
    /// and the rows `bottom..=top` of `grid`, from the bottom row upwards.
    pub(crate) fn new(
        grid: &'a Grid<V>,
        layer: usize,
        left: usize,
        bottom: usize,
        right: usize,
        top: usize,
    ) -> (r: Self)
        requires
            grid.wf(),
            right < grid.columns(),
            top < grid.rows(),
        ensures
            r.inv(),
            r.walk().untouched(),
            r.walk().bounds() == (left, bottom, right, top),
            r.grid() == *grid,
            r.layer() == layer,
            r@ == if layer < grid.layers() {
                rect_coords(left as int, bottom as int, right as int, top as int, true)
            } else {
                Seq::empty()
            },
    {
        IterGridRect { layer, grid, coords: IterCoords::new(left, bottom, right, top) }
    }

    /// Inverts the direction in which the rows follow each other: the
    /// iterator then starts in the top row and moves downwards. Only an
    /// iterator that has yielded nothing yet can be turned around.
    pub fn y_down(self) -> (r: Self)
        requires
            self.inv(),
            self.walk().untouched(),
        ensures
            r.inv(),
            r.grid() == self.grid(),
            r.layer() == self.layer(),
            r.walk().bounds() == self.walk().bounds(),
            !r.walk().ascending(),
            r@ == if self.layer() < self.grid().layers() {
                rect_coords(
                    self.walk().bounds().0 as int,
                    self.walk().bounds().1 as int,
                    self.walk().bounds().2 as int,
                    self.walk().bounds().3 as int,
                    false,
                )
            } else {
                Seq::empty()
            },
    {
        IterGridRect { layer: self.layer, grid: self.grid, coords: self.coords.y_down() }
    }

    /// Returns an iterator that yields each cell with its coordinates, as
    /// (value, column, row).
    pub fn enumerate_coords(self) -> (r: IterWithCoords<'a, V>)
        requires
            self.inv(),
        ensures
            r.inv(),
            r.inner() == self,
            r@ == self@,
    {
        let current_col = self.coords.current_col;
        let current_row = self.coords.current_row;
        IterWithCoords { iter: self, current_col, current_row }
    }

    /// Moves the cursor to the cell that comes next: one column to the
    /// right, or to the left end of the row that follows, or to the end of
    /// the walk. A walk that has ended stays as it is.
    pub fn advance(&mut self)
        requires
            old(self).inv(),
        ensures
            final(self).inv(),
            final(self).grid() == old(self).grid(),
            final(self).layer() == old(self).layer(),
            final(self).walk().bounds() == old(self).walk().bounds(),
            final(self).walk().ascending() == old(self).walk().ascending(),
            old(self).walk()@.len() == 0 ==> final(self).walk() == old(self).walk(),
            old(self).walk()@.len() > 0 ==> final(self).walk()@ == old(self).walk()@.skip(1),
            old(self).walk()@.len() > 0 ==> final(self).walk().cursor() == next_cursor(
                old(self).walk().bounds(),
                old(self).walk().ascending(),
                old(self).walk().cursor(),
            ),
            old(self)@.len() > 0 ==> final(self)@ == old(self)@.skip(1),
            old(self)@.len() == 0 ==> final(self)@.len() == 0,
    {
        proof {
            self.coords.lemma_cursor_is_next();
        }
        self.coords.advance();
    }

    /// Yields the cell under the cursor and moves on, until the walk has
    /// ended. A cell that the grid lacks ends the walk without being
    /// yielded.
    pub fn next(&mut self) -> (r: Option<&'a V>)
        requires
            old(self).inv(),
        ensures
            final(self).inv(),
            final(self).grid() == old(self).grid(),
            final(self).layer() == old(self).layer(),
            final(self).walk().bounds() == old(self).walk().bounds(),
            final(self).walk().ascending() == old(self).walk().ascending(),
            match r {
                Some(cell) => {
                    &&& old(self)@.len() > 0
                    &&& *cell == old(self).values()[0]
                    &&& final(self)@ == old(self)@.skip(1)
                    &&& !old(self).walk().finished()
                    &&& old(self).walk().cursor() == old(self)@[0]
                    &&& final(self).walk().cursor() == next_cursor(
                        old(self).walk().bounds(),
                        old(self).walk().ascending(),
                        old(self).walk().cursor(),
                    )
                },
                None => {
                    &&& old(self)@.len() == 0
                    &&& final(self)@ == old(self)@
                    &&& final(self).walk() == old(self).walk()
                },
            },
    {
        proof {
            self.lemma_view();
            self.coords.lemma_cursor_is_next();
        }
        if self.coords.done {
            return None;
        }
        match self.grid.get_cell_by_indices(
            self.coords.current_col,
            self.coords.current_row,
            self.layer,
        ) {
            Some(cell) => {
                self.advance();
                Some(cell)
            },
            None => None,
        }
    }
}

} // verus!
