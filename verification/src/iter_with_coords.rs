//! Walks the cells of a grid that a rectangle overlaps, together with their
//! column and row.

use vstd::prelude::*;

use crate::iter::IterGridRect;

verus! {

/// Yields (value, column, row) for each cell that an `IterGridRect` yields.
#[derive(Debug)]
pub struct IterWithCoords<'a, V> {
    pub(crate) iter: IterGridRect<'a, V>,
    pub(crate) current_col: usize,
    pub(crate) current_row: usize,
}

impl<'a, V> View for IterWithCoords<'a, V> {
    type V = Seq<(usize, usize)>;

    /// The (column, row) of each cell that is still to come, in the order in
    /// which they come.
    open spec fn view(&self) -> Seq<(usize, usize)> {
        self.inner()@
    }
}

impl<'a, V> IterWithCoords<'a, V> {
    /// The iterator that yields the values.
    pub open(crate) spec fn inner(&self) -> IterGridRect<'a, V> {
        self.iter
    }

    /// The invariant of the iterator: that of the iterator inside it, and a
    /// cursor of its own that stands where that iterator's cursor stands.
    pub open(crate) spec fn inv(&self) -> bool {
        &&& self.iter.inv()
        &&& (self.current_col, self.current_row) == self.iter.walk().cursor()
    }

    /// Yields the next cell with the column and row at which it lies, until
    /// the walk has ended.
    pub fn next(&mut self) -> (r: Option<(&'a V, usize, usize)>)
        requires
            old(self).inv(),
        ensures
            final(self).inv(),
            final(self).inner().grid() == old(self).inner().grid(),
            final(self).inner().layer() == old(self).inner().layer(),
            match r {
                Some((value, col, row)) => {
                    &&& old(self)@.len() > 0
                    &&& (col, row) == old(self)@[0]
                    &&& *value == old(self).inner().grid()@[old(self).inner().layer() as int][col as int][row as int]
                    &&& final(self)@ == old(self)@.skip(1)
                },
                None => {
                    &&& old(self)@.len() == 0
                    &&& final(self)@ == old(self)@
                },
            },
    {
        proof {
            self.iter.lemma_view();
            self.iter.walk().lemma_cursor_is_next();
        }
        if let Some(value) = self.iter.next() {
            // Capture the current coordinates
            let col = self.current_col;
            let row = self.current_row;
            // Advance the column, wrapping to the next row if needed
            let (next_col, next_row) = self.iter.coords.cursor_after((col, row));
            self.current_col = next_col;
            self.current_row = next_row;
            Some((value, col, row))
        } else {
            None
        }
    }
}

} // verus!
