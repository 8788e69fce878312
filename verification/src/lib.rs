//! A uniform rectangular grid of cells, each holding one value.
//!
//! A cell is reached by its column, row and layer, or by a physical point.
//! Physical quantities are whole numbers of a unit that the caller chooses:
//! a grid's own position and extent are `i32`, a point that is looked up is
//! an `i64`, so that every edge of a grid is itself a point.
//! The grid's pivot decides which physical point its lower-left corner is:
//! with the pivot at 0 the corner is the origin, with the pivot in the middle
//! the grid is centered around the origin.

use vstd::prelude::*;

pub mod iter;
pub mod iter_coords;
pub mod iter_with_coords;
pub mod mapping;

pub use crate::iter::IterGridRect;
pub use crate::iter_coords::IterCoords;
pub use crate::iter_with_coords::IterWithCoords;

use crate::iter_coords::{lemma_rect_cell_inside, rect_coords, rect_len};
use crate::mapping::{
    clamped_index, clamped_index_of, fraction_of, index_of, lemma_cell_holds_point,
    lemma_cell_index_is_ordered, lemma_inside_is_in_bounds, lemma_outside_is_clamped, pivot_offset,
    quotient, rescale, saturated_index, scaled_offset,
};

verus! {

/// The pivot fraction that stands for the whole extent of the grid.
/// Half of it centers the grid.
pub const PIVOT_FULL: u32 = 1_000_000;

/// A rectangular grid of cells of equal size, in one or more layers, each
/// cell holding one value. `x` and `y` are the physical position of the
/// pivot.
#[derive(Debug)]
pub struct Grid<V> {
    // Dimensions
    pub x: i32,
    pub y: i32,
    width: i32,
    height: i32,
    cell_width: i32,
    cell_height: i32,
    // Slots
    columns: usize,
    rows: usize,
    layers: usize,
    // Pivot, as the distance from the lower-left corner
    offset_x: i32,
    offset_y: i32,
    // Storage, indexed by layer, column and row
    data: Vec<Vec<Vec<V>>>,
}

/// The cells of a nested vector, indexed by layer, column and row.
pub open spec fn cells_of<V>(data: Vec<Vec<Vec<V>>>) -> Seq<Seq<Seq<V>>> {
    Seq::new(data@.len(), |l: int| Seq::new(data@[l]@.len(), |c: int| data@[l]@[c]@))
}

/// `cells` with the value at one column, row and layer replaced by `value`.
pub open spec fn with_cell<V>(
    cells: Seq<Seq<Seq<V>>>,
    col: int,
    row: int,
    layer: int,
    value: V,
) -> Seq<Seq<Seq<V>>> {
    cells.update(layer, cells[layer].update(col, cells[layer][col].update(row, value)))
}

/// Replacing one value of a nested vector replaces that cell and no other.
proof fn lemma_cells_of_update<V>(data: Vec<Vec<Vec<V>>>, col: int, row: int, layer: int)
    requires
        0 <= layer < data@.len(),
        0 <= col < data@[layer]@.len(),
        0 <= row < data@[layer]@[col]@.len(),
    ensures
        forall|after: Vec<Vec<Vec<V>>>|
            after@ == data@.update(layer, after@[layer]) && after@[layer]@ == data@[layer]@.update(
                col,
                after@[layer]@[col],
            ) && after@[layer]@[col]@ == data@[layer]@[col]@.update(row, after@[layer]@[col]@[row])
                ==> #[trigger] cells_of(after) == with_cell(
                cells_of(data),
                col,
                row,
                layer,
                after@[layer]@[col]@[row],
            ),
{
    assert forall|after: Vec<Vec<Vec<V>>>|
        after@ == data@.update(layer, after@[layer]) && after@[layer]@ == data@[layer]@.update(
            col,
            after@[layer]@[col],
        ) && after@[layer]@[col]@ == data@[layer]@[col]@.update(
            row,
            after@[layer]@[col]@[row],
        ) implies #[trigger] cells_of(after) == with_cell(
        cells_of(data),
        col,
        row,
        layer,
        after@[layer]@[col]@[row],
    ) by {
        assert(cells_of(after) =~~= with_cell(
            cells_of(data),
            col,
            row,
            layer,
            after@[layer]@[col]@[row],
        ));
    }
}

/// Whether the cell at layer `l`, column `c` and row `r` comes before the
/// one at layer `to_l`, column `to_c` and row `to_r` when the storage is
/// walked layer by layer, column by column and row by row.
pub open spec fn comes_before(l: int, c: int, r: int, to_l: int, to_c: int, to_r: int) -> bool {
    l < to_l || (l == to_l && (c < to_c || (c == to_c && r < to_r)))
}

/// Whether the cell at column `col` and row `row` is a corner of the
/// rectangle of cells with the edges `e`: (left column, bottom row, right
/// column, top row). A rectangle whose edges are inverted has no corner.
pub open spec fn is_corner(e: (usize, usize, usize, usize), col: int, row: int) -> bool {
    &&& e.0 <= e.2
    &&& e.1 <= e.3
    &&& col == e.0 || col == e.2
    &&& row == e.1 || row == e.3
}

/// Whether `cells` holds `layers` layers of `columns` columns of `rows` cells.
pub open spec fn has_shape<V>(cells: Seq<Seq<Seq<V>>>, columns: int, rows: int, layers: int) -> bool {
    &&& cells.len() == layers
    &&& forall|l: int| 0 <= l < layers ==> (#[trigger] cells[l]).len() == columns
    &&& forall|l: int, c: int|
        0 <= l < layers && 0 <= c < columns ==> (#[trigger] cells[l][c]).len() == rows
}

impl<V> View for Grid<V> {
    type V = Seq<Seq<Seq<V>>>;

    /// The cells, indexed by layer, column and row.
    closed spec fn view(&self) -> Seq<Seq<Seq<V>>> {
        cells_of(self.data)
    }
}

impl<V> Grid<V> {
    /// The field `x`: the horizontal position of the pivot.
    pub closed spec fn position_x(&self) -> i32 {
        self.x
    }

    /// The field `y`: the vertical position of the pivot.
    pub closed spec fn position_y(&self) -> i32 {
        self.y
    }

    /// The physical width.
    pub closed spec fn spec_width(&self) -> i32 {
        self.width
    }

    /// The physical height.
    pub closed spec fn spec_height(&self) -> i32 {
        self.height
    }

    /// The number of layers.
    pub closed spec fn spec_layers(&self) -> usize {
        self.layers
    }

    /// The physical width of each cell, rounded down to whole units.
    pub closed spec fn spec_cell_width(&self) -> i32 {
        self.cell_width
    }

    /// The physical height of each cell, rounded down to whole units.
    pub closed spec fn spec_cell_height(&self) -> i32 {
        self.cell_height
    }

    /// The number of columns.
    pub closed spec fn spec_columns(&self) -> usize {
        self.columns
    }

    /// The number of rows.
    pub closed spec fn spec_rows(&self) -> usize {
        self.rows
    }

    /// The horizontal distance of the pivot from the left edge.
    pub closed spec fn spec_offset_x(&self) -> i32 {
        self.offset_x
    }

    /// The vertical distance of the pivot from the bottom edge.
    pub closed spec fn spec_offset_y(&self) -> i32 {
        self.offset_y
    }

    /// The invariant of a grid: a physical extent that is not negative, at
    /// least one column, row and layer, cell sizes that follow from extent
    /// and counts, a pivot inside the extent, and one cell for every index.
    pub open spec fn wf(&self) -> bool {
        &&& 0 <= self.width()
        &&& 0 <= self.height()
        &&& 0 < self.columns()
        &&& 0 < self.rows()
        &&& 0 < self.layers()
        &&& self.cell_width() == self.width() as int / self.columns() as int
        &&& self.cell_height() == self.height() as int / self.rows() as int
        &&& 0 <= self.offset_x() <= self.width()
        &&& 0 <= self.offset_y() <= self.height()
        &&& has_shape(self@, self.columns() as int, self.rows() as int, self.layers() as int)
    }

    /// Whether two grids agree in everything but the values in their cells.
    pub open spec fn same_geometry(&self, other: &Self) -> bool {
        &&& self.position_x() == other.position_x()
        &&& self.position_y() == other.position_y()
        &&& self.width() == other.width()
        &&& self.height() == other.height()
        &&& self.cell_width() == other.cell_width()
        &&& self.cell_height() == other.cell_height()
        &&& self.columns() == other.columns()
        &&& self.rows() == other.rows()
        &&& self.layers() == other.layers()
        &&& self.offset_x() == other.offset_x()
        &&& self.offset_y() == other.offset_y()
    }

    /// Whether the storage holds a cell at these indices.
    pub open spec fn has_cell(&self, col: int, row: int, layer: int) -> bool {
        &&& 0 <= layer < self@.len()
        &&& 0 <= col < self@[layer].len()
        &&& 0 <= row < self@[layer][col].len()
    }

    /// The column and row of the cell that holds the physical point
    /// (`x`, `y`): none for a point left of or below the grid, else the
    /// floor of the point's distance from the lower-left corner divided by
    /// the cell size, which is beyond the last column or row for a point
    /// right of or above the grid.
    pub open spec fn cell_coords(&self, x: int, y: int) -> Option<(usize, usize)> {
        if x + self.offset_x() < 0 || y + self.offset_y() < 0 {
            None
        } else {
            Some(
                (
                    saturated_index(
                        x + self.offset_x(),
                        self.width() as int,
                        self.columns() as int,
                    ) as usize,
                    saturated_index(
                        y + self.offset_y(),
                        self.height() as int,
                        self.rows() as int,
                    ) as usize,
                ),
            )
        }
    }

    /// The columns and rows that a physical rectangle overlaps, as
    /// (left column, bottom row, right column, top row), each edge forced
    /// into the columns and rows that exist.
    pub open spec fn edges(&self, left: int, bottom: int, right: int, top: int) -> (
        usize,
        usize,
        usize,
        usize,
    ) {
        (
            clamped_index(left + self.offset_x(), self.width() as int, self.columns() as int) as usize,
            clamped_index(bottom + self.offset_y(), self.height() as int, self.rows() as int) as usize,
            clamped_index(right + self.offset_x(), self.width() as int, self.columns() as int) as usize,
            clamped_index(top + self.offset_y(), self.height() as int, self.rows() as int) as usize,
        )
    }

    /// The (column, row) of each cell that a physical rectangle overlaps,
    /// row after row from the bottom upwards, each row from left to right.
    pub open spec fn coords_in_rect(&self, left: int, bottom: int, right: int, top: int) -> Seq<
        (usize, usize),
    > {
        let e = self.edges(left, bottom, right, top);
        rect_coords(e.0 as int, e.1 as int, e.2 as int, e.3 as int, true)
    }

    /// The values of `layer` at each of `coords`, in their order.
    pub open spec fn values_at(&self, layer: int, coords: Seq<(usize, usize)>) -> Seq<V> {
        Seq::new(coords.len(), |k: int| self@[layer][coords[k].0 as int][coords[k].1 as int])
    }

    /// The (column, row) of each cell of the grid, row after row, each row
    /// from left to right: from the bottom row upwards if `y_up`, else from
    /// the top row downwards.
    pub open spec fn all_coords(&self, y_up: bool) -> Seq<(usize, usize)> {
        rect_coords(0, 0, self.columns() - 1, self.rows() - 1, y_up)
    }

    /// Returns a grid whose cells hold what `func` returns, one call for
    /// each cell. Its pivot is placed at (0, 0): in the middle of the grid if
    /// `centered`, else in its lower-left corner. Use [`Grid::resize`] to
    /// adjust its physical size, and [`Grid::set_pivot`] to move the pivot.
    pub fn new<F>(
        width: i32,
        height: i32,
        columns: usize,
        rows: usize,
        layers: usize,
        centered: bool,
        func: F,
    ) -> (grid: Self) where F: FnMut() -> V
        requires
            0 <= width,
            0 <= height,
            0 < columns,
            0 < rows,
            0 < layers,
            call_requires(func, ()),
        ensures
            grid.wf(),
            grid.position_x() == 0,
            grid.position_y() == 0,
            grid.width() == width,
            grid.height() == height,
            grid.columns() == columns,
            grid.rows() == rows,
            grid.layers() == layers,
            grid.offset_x() == if centered { width as int / 2 } else { 0 },
            grid.offset_y() == if centered { height as int / 2 } else { 0 },
            forall|l: int, c: int, r: int|
                0 <= l < layers && 0 <= c < columns && 0 <= r < rows ==> call_ensures(
                    func,
                    (),
                    #[trigger] grid@[l][c][r],
                ),
    {
        broadcast use vstd::function::group_function_axioms;

        let mut f = func;
        let mut data: Vec<Vec<Vec<V>>> = Vec::new();
        let mut l: usize = 0;
        while l < layers
            invariant
                l <= layers,
                f == func,
                call_requires(func, ()),
                data.len() == l,
                forall|i: int| 0 <= i < l ==> (#[trigger] data[i]).len() == columns,
                forall|i: int, j: int|
                    0 <= i < l && 0 <= j < columns ==> (#[trigger] data[i][j]).len() == rows,
                forall|i: int, j: int, k: int|
                    0 <= i < l && 0 <= j < columns && 0 <= k < rows ==> call_ensures(
                        func,
                        (),
                        #[trigger] data[i][j][k],
                    ),
            decreases layers - l,
        {
            let mut layer: Vec<Vec<V>> = Vec::new();
            let mut c: usize = 0;
            while c < columns
                invariant
                    c <= columns,
                    f == func,
                    call_requires(func, ()),
                    layer.len() == c,
                    forall|j: int| 0 <= j < c ==> (#[trigger] layer[j]).len() == rows,
                    forall|j: int, k: int|
                        0 <= j < c && 0 <= k < rows ==> call_ensures(
                            func,
                            (),
                            #[trigger] layer[j][k],
                        ),
                decreases columns - c,
            {
                let mut column: Vec<V> = Vec::new();
                let mut r: usize = 0;
                while r < rows
                    invariant
                        r <= rows,
                        f == func,
                        call_requires(func, ()),
                        column.len() == r,
                        forall|k: int| 0 <= k < r ==> call_ensures(func, (), #[trigger] column[k]),
                    decreases rows - r,
                {
                    column.push(f());
                    r += 1;
                }
                layer.push(column);
                c += 1;
            }
            data.push(layer);
            l += 1;
        }
        let cell_width: i32 = quotient(width, columns);
        let cell_height: i32 = quotient(height, rows);
        let grid = Self {
            x: 0,
            y: 0,
            width,
            height,
            cell_width,
            cell_height,
            columns,
            rows,
            layers,
            offset_x: if centered { width / 2 } else { 0 },
            offset_y: if centered { height / 2 } else { 0 },
            data,
        };
        proof {
            assert forall|i: int, j: int, k: int|
                0 <= i < layers && 0 <= j < columns && 0 <= k < rows implies call_ensures(
                func,
                (),
                #[trigger] grid@[i][j][k],
            ) by {
                assert(grid@[i][j][k] == data[i][j][k]);
            }
        }
        grid
    }

    /// Sets the physical size. The pivot keeps its place relative to the
    /// extent, rounded down to whole units; it stays in the lower-left corner
    /// of a grid that had no extent.
    pub fn resize(&mut self, width: i32, height: i32)
        requires
            old(self).wf(),
            0 <= width,
            0 <= height,
        ensures
            final(self).wf(),
            final(self).width() == width,
            final(self).height() == height,
            final(self).offset_x() == scaled_offset(
                old(self).offset_x() as int,
                old(self).width() as int,
                width as int,
            ),
            final(self).offset_y() == scaled_offset(
                old(self).offset_y() as int,
                old(self).height() as int,
                height as int,
            ),
            final(self).position_x() == old(self).position_x(),
            final(self).position_y() == old(self).position_y(),
            final(self).columns() == old(self).columns(),
            final(self).rows() == old(self).rows(),
            final(self).layers() == old(self).layers(),
            final(self)@ == old(self)@,
    {
        let offset_x: i32 = rescale(self.offset_x, self.width, width);
        let offset_y: i32 = rescale(self.offset_y, self.height, height);
        self.width = width;
        self.height = height;
        self.cell_width = quotient(width, self.columns);
        self.cell_height = quotient(height, self.rows);
        self.offset_x = offset_x;
        self.offset_y = offset_y;
    }

    /// Sets the pivot point as a fraction of the extent, in a range from 0
    /// (the lower-left corner) to `PIVOT_FULL` (the upper-right corner), with
    /// half of `PIVOT_FULL` being centered.
    pub fn set_pivot(&mut self, x: u32, y: u32)
        requires
            old(self).wf(),
            x <= PIVOT_FULL,
            y <= PIVOT_FULL,
        ensures
            final(self).wf(),
            final(self).offset_x() == pivot_offset(old(self).width() as int, x as int),
            final(self).offset_y() == pivot_offset(old(self).height() as int, y as int),
            final(self).position_x() == old(self).position_x(),
            final(self).position_y() == old(self).position_y(),
            final(self).width() == old(self).width(),
            final(self).height() == old(self).height(),
            final(self).columns() == old(self).columns(),
            final(self).rows() == old(self).rows(),
            final(self).layers() == old(self).layers(),
            final(self)@ == old(self)@,
    {
        self.offset_x = fraction_of(self.width, x);
        self.offset_y = fraction_of(self.height, y);
    }

    /// Physical width.
    #[verifier::when_used_as_spec(spec_width)]
    pub fn width(&self) -> (r: i32)
        ensures
            r == self.width(),
    {
        self.width
    }

    /// Physical height.
    #[verifier::when_used_as_spec(spec_height)]
    pub fn height(&self) -> (r: i32)
        ensures
            r == self.height(),
    {
        self.height
    }

    /// Layer count.
    #[verifier::when_used_as_spec(spec_layers)]
    pub fn layers(&self) -> (r: usize)
        ensures
            r == self.layers(),
    {
        self.layers
    }

    /// Physical width of each cell, rounded down to whole units.
    #[verifier::when_used_as_spec(spec_cell_width)]
    pub fn cell_width(&self) -> (r: i32)
        ensures
            r == self.cell_width(),
    {
        self.cell_width
    }

    /// Physical height of each cell, rounded down to whole units.
    #[verifier::when_used_as_spec(spec_cell_height)]
    pub fn cell_height(&self) -> (r: i32)
        ensures
            r == self.cell_height(),
    {
        self.cell_height
    }

    /// Total number of columns.
    #[verifier::when_used_as_spec(spec_columns)]
    pub fn columns(&self) -> (r: usize)
        ensures
            r == self.columns(),
    {
        self.columns
    }

    /// Total number of rows.
    #[verifier::when_used_as_spec(spec_rows)]
    pub fn rows(&self) -> (r: usize)
        ensures
            r == self.rows(),
    {
        self.rows
    }

    /// The horizontal distance of the pivot from the left edge.
    #[verifier::when_used_as_spec(spec_offset_x)]
    pub fn offset_x(&self) -> (r: i32)
        ensures
            r == self.offset_x(),
    {
        self.offset_x
    }

    /// The vertical distance of the pivot from the bottom edge.
    #[verifier::when_used_as_spec(spec_offset_y)]
    pub fn offset_y(&self) -> (r: i32)
        ensures
            r == self.offset_y(),
    {
        self.offset_y
    }

    /// The left-most edge occupied by the grid. This is `x` if the pivot is at 0.
    pub fn left(&self) -> (r: i64)
        ensures
            r == self.position_x() - self.offset_x(),
    {
        self.x as i64 - self.offset_x as i64
    }

    /// The right-most edge occupied by the grid.
    pub fn right(&self) -> (r: i64)
        ensures
            r == self.position_x() + self.width() - self.offset_x(),
    {
        self.x as i64 + self.width as i64 - self.offset_x as i64
    }

    /// The bottom-most edge occupied by the grid. Coordinates grow upwards,
    /// so this is `y` if the pivot is at 0.
    pub fn bottom(&self) -> (r: i64)
        ensures
            r == self.position_y() - self.offset_y(),
    {
        self.y as i64 - self.offset_y as i64
    }

    /// The top-most edge occupied by the grid. Coordinates grow upwards.
    pub fn top(&self) -> (r: i64)
        ensures
            r == self.position_y() + self.height() - self.offset_y(),
    {
        self.y as i64 + self.height as i64 - self.offset_y as i64
    }

    /// Returns the column and row of the cell that holds the physical point
    /// (`x`, `y`), if the point is not left of or below the grid.
    pub fn get_cell_coords(&self, x: i64, y: i64) -> (r: Option<(usize, usize)>)
        requires
            self.wf(),
        ensures
            r == self.cell_coords(x as int, y as int),
    {
        let x: i128 = x as i128 + self.offset_x as i128;
        if x < 0 {
            return None;
        }
        let y: i128 = y as i128 + self.offset_y as i128;
        if y < 0 {
            return None;
        }
        let col: usize = index_of(x, self.width, self.columns);
        let row: usize = index_of(y, self.height, self.rows);
        Some((col, row))
    }

    /// Returns a reference to the content of the cell that holds the
    /// physical point (`x`, `y`) in `layer`, if there is such a cell.
    pub fn get_cell(&self, x: i64, y: i64, layer: usize) -> (r: Option<&V>)
        requires
            self.wf(),
        ensures
            match (self.cell_coords(x as int, y as int), r) {
                (Some(at), Some(cell)) => self.has_cell(at.0 as int, at.1 as int, layer as int)
                    && *cell == self@[layer as int][at.0 as int][at.1 as int],
                (Some(at), None) => !self.has_cell(at.0 as int, at.1 as int, layer as int),
                (None, r) => r is None,
            },
    {
        match self.get_cell_coords(x, y) {
            Some(coords) => self.get_cell_by_indices(coords.0, coords.1, layer),
            None => None,
        }
    }

    /// Returns a mutable reference to the content of the cell that holds the
    /// physical point (`x`, `y`) in `layer`, if there is such a cell. What
    /// the caller writes through it is the only thing that changes in the
    /// grid.
    pub fn get_cell_mut(&mut self, x: i64, y: i64, layer: usize) -> (r: Option<&mut V>)
        requires
            old(self).wf(),
        ensures
            final(self).wf(),
            final(self).same_geometry(old(self)),
            match (old(self).cell_coords(x as int, y as int), r) {
                (Some(at), Some(cell)) => {
                    &&& old(self).has_cell(at.0 as int, at.1 as int, layer as int)
                    &&& *cell == old(self)@[layer as int][at.0 as int][at.1 as int]
                    &&& final(self)@ == with_cell(
                        old(self)@,
                        at.0 as int,
                        at.1 as int,
                        layer as int,
                        *final(cell),
                    )
                },
                (Some(at), None) => {
                    &&& !old(self).has_cell(at.0 as int, at.1 as int, layer as int)
                    &&& final(self)@ == old(self)@
                },
                (None, Some(_)) => false,
                (None, None) => final(self)@ == old(self)@,
            },
    {
        match self.get_cell_coords(x, y) {
            Some(coords) => self.get_cell_by_indices_mut(coords.0, coords.1, layer),
            None => None,
        }
    }

    /// Returns a reference to the content of the cell at these indices, if
    /// there is such a cell.
    pub fn get_cell_by_indices(&self, col: usize, row: usize, layer: usize) -> (r: Option<&V>)
        ensures
            match r {
                Some(cell) => self.has_cell(col as int, row as int, layer as int) && *cell
                    == self@[layer as int][col as int][row as int],
                None => !self.has_cell(col as int, row as int, layer as int),
            },
    {
        if layer < self.data.len() {
            let columns = &self.data[layer];
            if col < columns.len() {
                let cells = &columns[col];
                if row < cells.len() {
                    return Some(&cells[row]);
                }
            }
        }
        None
    }

    /// Returns a mutable reference to the content of the cell at these
    /// indices, if there is such a cell. What the caller writes through it is
    /// the only thing that changes in the grid.
    pub fn get_cell_by_indices_mut(&mut self, col: usize, row: usize, layer: usize) -> (r: Option<
        &mut V,
    >)
        ensures
            old(self).wf() ==> final(self).wf(),
            match r {
                Some(cell) => {
                    &&& old(self).has_cell(col as int, row as int, layer as int)
                    &&& *cell == old(self)@[layer as int][col as int][row as int]
                    &&& final(self)@ == with_cell(
                        old(self)@,
                        col as int,
                        row as int,
                        layer as int,
                        *final(cell),
                    )
                    &&& final(self).same_geometry(old(self))
                },
                None => {
                    &&& !old(self).has_cell(col as int, row as int, layer as int)
                    &&& final(self)@ == old(self)@
                    &&& final(self).same_geometry(old(self))
                },
            },
    {
        if layer < self.data.len() && col < self.data[layer].len() && row
            < self.data[layer][col].len() {
            proof {
                lemma_cells_of_update(self.data, col as int, row as int, layer as int);
                if self.wf() {
                    assert forall|value: V|
                        has_shape(
                            #[trigger] with_cell(self@, col as int, row as int, layer as int, value),
                            self.columns() as int,
                            self.rows() as int,
                            self.layers() as int,
                        ) by {
                        lemma_with_cell_keeps_shape(
                            self@,
                            self.columns() as int,
                            self.rows() as int,
                            self.layers() as int,
                            col as int,
                            row as int,
                            layer as int,
                            value,
                        );
                    }
                }
            }
            Some(&mut self.data[layer][col][row])
        } else {
            None
        }
    }

    /// Turns a physical rectangle into the columns and rows that it
    /// overlaps: (left column, bottom row, right column, top row). Each index
    /// is the floor of the edge's distance from the lower-left corner divided
    /// by the cell size, forced into the columns and rows that exist, so a
    /// rectangle that lies beside the grid gets the nearest edge cells.
    /// Where the rectangle's own edges are inverted the indices may be
    /// inverted too, and stand for no cell at all.
    pub fn get_edges(&self, left: i64, bottom: i64, right: i64, top: i64) -> (r: (
        usize,
        usize,
        usize,
        usize,
    ))
        requires
            self.wf(),
        ensures
            r == self.edges(left as int, bottom as int, right as int, top as int),
            r.0 < self.columns(),
            r.1 < self.rows(),
            r.2 < self.columns(),
            r.3 < self.rows(),
    {
        // Apply offsets
        let left: i128 = left as i128 + self.offset_x as i128;
        let bottom: i128 = bottom as i128 + self.offset_y as i128;
        let right: i128 = right as i128 + self.offset_x as i128;
        let top: i128 = top as i128 + self.offset_y as i128;
        // Get columns and rows
        let col_left: usize = clamped_index_of(left, self.width, self.columns);
        let col_right: usize = clamped_index_of(right, self.width, self.columns);
        let row_bottom: usize = clamped_index_of(bottom, self.height, self.rows);
        let row_top: usize = clamped_index_of(top, self.height, self.rows);
        (col_left, row_bottom, col_right, row_top)
    }

    /// Returns an iterator over the cells of `layer` that overlap a
    /// rectangle. It starts at the bottom-left cell and moves row by row to
    /// the top-right cell; [`IterGridRect::y_down`] makes it start in the top
    /// row instead. A rectangle whose right edge lies left of its left edge,
    /// or its top edge below its bottom edge, overlaps nothing.
    pub fn iter_cells_in_rect(
        &self,
        left: i64,
        bottom: i64,
        right: i64,
        top: i64,
        layer: usize,
    ) -> (r: IterGridRect<'_, V>)
        requires
            self.wf(),
        ensures
            r.inv(),
            r.walk().untouched(),
            r.grid() == *self,
            r.layer() == layer,
            r.walk().bounds() == self.edges(left as int, bottom as int, right as int, top as int),
            r@ == if layer < self.layers() {
                self.coords_in_rect(left as int, bottom as int, right as int, top as int)
            } else {
                Seq::empty()
            },
    {
        let (col_left, row_bottom, col_right, row_top) = self.get_edges(left, bottom, right, top);
        // Create and return the iterator with calculated bounds
        IterGridRect::new(self, layer, col_left, row_bottom, col_right, row_top)
    }

    /// Returns an iterator that yields the (column, row) pair of each cell
    /// that overlaps a rectangle, from the bottom row upwards.
    pub fn iter_coords_in_rect(&self, left: i64, bottom: i64, right: i64, top: i64) -> (r:
        IterCoords)
        requires
            self.wf(),
        ensures
            r.inv(),
            r.untouched(),
            r.bounds() == self.edges(left as int, bottom as int, right as int, top as int),
            r@ == self.coords_in_rect(left as int, bottom as int, right as int, top as int),
    {
        let (col_left, row_bottom, col_right, row_top) = self.get_edges(left, bottom, right, top);
        IterCoords::new(col_left, row_bottom, col_right, row_top)
    }

    /// Returns an iterator that yields the (column, row) pair of each cell
    /// that overlaps a rectangle, from the bottom row upwards.
    pub fn iter_info_in_rect(&self, left: i64, bottom: i64, right: i64, top: i64) -> (r:
        IterCoords)
        requires
            self.wf(),
        ensures
            r.inv(),
            r.untouched(),
            r.bounds() == self.edges(left as int, bottom as int, right as int, top as int),
            r@ == self.coords_in_rect(left as int, bottom as int, right as int, top as int),
    {
        let (col_left, row_bottom, col_right, row_top) = self.get_edges(left, bottom, right, top);
        IterCoords::new(col_left, row_bottom, col_right, row_top)
    }

    /// Returns an iterator over all cells of `layer`, from the bottom-left
    /// cell row by row to the top-right cell.
    pub fn iter_all_cells(&self, layer: usize) -> (r: IterGridRect<'_, V>)
        requires
            self.wf(),
        ensures
            r.inv(),
            r.walk().untouched(),
            r.grid() == *self,
            r.layer() == layer,
            r.walk().bounds() == (0usize, 0usize, (self.columns() - 1) as usize, (self.rows() - 1) as usize),
            r@ == if layer < self.layers() {
                self.all_coords(true)
            } else {
                Seq::empty()
            },
    {
        IterGridRect::new(self, layer, 0, 0, self.columns - 1, self.rows - 1)
    }

    /// Lets `func` change the content of every cell, one call for each cell.
    pub fn modify_all<F>(&mut self, func: F) where F: FnMut(&mut V)
        requires
            old(self).wf(),
            forall|l: int, c: int, r: int, cell: &mut V|
                #![trigger old(self).has_cell(c, r, l), call_requires(func, (cell,))]
                old(self).has_cell(c, r, l) && *cell == old(self)@[l][c][r] ==> call_requires(
                    func,
                    (cell,),
                ),
        ensures
            final(self).wf(),
            final(self).same_geometry(old(self)),
            forall|l: int, c: int, r: int| #[trigger]
                old(self).has_cell(c, r, l) ==> exists|cell: &mut V|
                    #![trigger call_ensures(func, (cell,), ())]
                    *cell == old(self)@[l][c][r] && *final(cell) == final(self)@[l][c][r]
                        && call_ensures(func, (cell,), ()),
    {
        broadcast use vstd::function::group_function_axioms;

        let mut f = func;
        let ghost before = self@;
        let ghost start = *self;
        let layers = self.layers;
        let columns = self.columns;
        let rows = self.rows;
        let mut l: usize = 0;
        while l < layers
            invariant
                self.wf(),
                start.wf(),
                before == start@,
                self.same_geometry(&start),
                layers == self.layers(),
                columns == self.columns(),
                rows == self.rows(),
                f == func,
                l <= layers,
                forall|i: int, j: int, k: int, cell: &mut V|
                    #![trigger start.has_cell(j, k, i), call_requires(func, (cell,))]
                    start.has_cell(j, k, i) && *cell == before[i][j][k] ==> call_requires(
                        func,
                        (cell,),
                    ),
                forall|i: int, j: int, k: int| #[trigger]
                    start.has_cell(j, k, i) ==> if comes_before(i, j, k, l as int, 0, 0) {
                        exists|cell: &mut V|
                            #![trigger call_ensures(func, (cell,), ())]
                            *cell == before[i][j][k] && *final(cell) == self@[i][j][k]
                                && call_ensures(func, (cell,), ())
                    } else {
                        self@[i][j][k] == before[i][j][k]
                    },
            decreases layers - l,
        {
            let mut c: usize = 0;
            while c < columns
                invariant
                    self.wf(),
                    start.wf(),
                    before == start@,
                    self.same_geometry(&start),
                    layers == self.layers(),
                    columns == self.columns(),
                    rows == self.rows(),
                    f == func,
                    l < layers,
                    c <= columns,
                    forall|i: int, j: int, k: int, cell: &mut V|
                        #![trigger start.has_cell(j, k, i), call_requires(func, (cell,))]
                        start.has_cell(j, k, i) && *cell == before[i][j][k] ==> call_requires(
                            func,
                            (cell,),
                        ),
                    forall|i: int, j: int, k: int| #[trigger]
                        start.has_cell(j, k, i) ==> if comes_before(
                            i,
                            j,
                            k,
                            l as int,
                            c as int,
                            0,
                        ) {
                            exists|cell: &mut V|
                                #![trigger call_ensures(func, (cell,), ())]
                                *cell == before[i][j][k] && *final(cell) == self@[i][j][k]
                                    && call_ensures(func, (cell,), ())
                        } else {
                            self@[i][j][k] == before[i][j][k]
                        },
                decreases columns - c,
            {
                let mut r: usize = 0;
                while r < rows
                    invariant
                        self.wf(),
                        start.wf(),
                        before == start@,
                        self.same_geometry(&start),
                        layers == self.layers(),
                        columns == self.columns(),
                        rows == self.rows(),
                        f == func,
                        l < layers,
                        c < columns,
                        r <= rows,
                        forall|i: int, j: int, k: int, cell: &mut V|
                            #![trigger start.has_cell(j, k, i), call_requires(func, (cell,))]
                            start.has_cell(j, k, i) && *cell == before[i][j][k] ==> call_requires(
                                func,
                                (cell,),
                            ),
                        forall|i: int, j: int, k: int| #[trigger]
                            start.has_cell(j, k, i) ==> if comes_before(
                                i,
                                j,
                                k,
                                l as int,
                                c as int,
                                r as int,
                            ) {
                                exists|cell: &mut V|
                                    #![trigger call_ensures(func, (cell,), ())]
                                    *cell == before[i][j][k] && *final(cell) == self@[i][j][k]
                                        && call_ensures(func, (cell,), ())
                            } else {
                                self@[i][j][k] == before[i][j][k]
                            },
                    decreases rows - r,
                {
                    let ghost cells = self@;
                    assert(start.has_cell(c as int, r as int, l as int));
                    assert(self.has_cell(c as int, r as int, l as int));
                    proof {
                        assert forall|value: V|
                            has_shape(
                                #[trigger] with_cell(cells, c as int, r as int, l as int, value),
                                columns as int,
                                rows as int,
                                layers as int,
                            ) && forall|i: int, j: int, k: int|
                                start.has_cell(j, k, i) && (i != l || j != c || k != r)
                                    ==> with_cell(cells, c as int, r as int, l as int, value)[i][j][k]
                                    == cells[i][j][k] by {
                            lemma_with_cell_keeps_shape(
                                cells,
                                columns as int,
                                rows as int,
                                layers as int,
                                c as int,
                                r as int,
                                l as int,
                                value,
                            );
                        }
                    }
                    match self.get_cell_by_indices_mut(c, r, l) {
                        Some(cell) => {
                            f(cell);
                        },
                        None => {},
                    }
                    r += 1;
                }
                c += 1;
            }
            l += 1;
        }
    }

    /// Lets `func` change the content of one cell.
    fn modify_cell<F>(&mut self, col: usize, row: usize, layer: usize, func: &mut F) where
        F: FnMut((usize, usize), &mut V),

        requires
            old(self).wf(),
            col < old(self).columns(),
            row < old(self).rows(),
            layer < old(self).layers(),
            forall|cell: &mut V|
                *cell == old(self)@[layer as int][col as int][row as int] ==> call_requires(
                    *old(func),
                    ((col, row), cell),
                ),
        ensures
            final(self).wf(),
            final(self).same_geometry(old(self)),
            *final(func) == *old(func),
            exists|cell: &mut V|
                #![trigger call_ensures(*old(func), ((col, row), cell), ())]
                *cell == old(self)@[layer as int][col as int][row as int]
                    && *final(cell) == final(self)@[layer as int][col as int][row as int]
                    && call_ensures(*old(func), ((col, row), cell), ()),
            final(self)@ == with_cell(
                old(self)@,
                col as int,
                row as int,
                layer as int,
                final(self)@[layer as int][col as int][row as int],
            ),
    {
        broadcast use vstd::function::group_function_axioms;

        let ghost cells = self@;
        assert(self@[layer as int].len() == self.columns());
        assert(self@[layer as int][col as int].len() == self.rows());
        proof {
            assert forall|value: V|
                (#[trigger] with_cell(
                    cells,
                    col as int,
                    row as int,
                    layer as int,
                    value,
                ))[layer as int][col as int][row as int] == value by {
                lemma_with_cell_keeps_shape(
                    cells,
                    self.columns() as int,
                    self.rows() as int,
                    self.layers() as int,
                    col as int,
                    row as int,
                    layer as int,
                    value,
                );
            }
        }
        match self.get_cell_by_indices_mut(col, row, layer) {
            Some(cell) => {
                func((col, row), cell);
            },
            None => {},
        }
    }

    /// Lets `func` change the content of the cells in which the corners of
    /// a rectangle lie, given the cell's (column, row) and its content: one
    /// call for each such cell of `layer`, so one call for a rectangle that
    /// lies inside one cell, and four at most. The corners are those of the
    /// cells that the rectangle overlaps, first the bottom ones, on each
    /// level the left one first. A rectangle whose edges are inverted, and a
    /// layer that the grid lacks, change nothing.
    pub fn modify_in_rect<F>(
        &mut self,
        left: i64,
        bottom: i64,
        right: i64,
        top: i64,
        layer: usize,
        func: F,
    ) where F: FnMut((usize, usize), &mut V)
        requires
            old(self).wf(),
            forall|col: usize, row: usize, cell: &mut V|
                #![trigger call_requires(func, ((col, row), cell))]
                layer < old(self).layers() && is_corner(
                    old(self).edges(left as int, bottom as int, right as int, top as int),
                    col as int,
                    row as int,
                ) && *cell == old(self)@[layer as int][col as int][row as int] ==> call_requires(
                    func,
                    ((col, row), cell),
                ),
        ensures
            final(self).wf(),
            final(self).same_geometry(old(self)),
            forall|l: int, c: int, r: int| #[trigger]
                old(self).has_cell(c, r, l) ==> if l == layer && is_corner(
                    old(self).edges(left as int, bottom as int, right as int, top as int),
                    c,
                    r,
                ) {
                    exists|cell: &mut V|
                        #![trigger call_ensures(func, ((c as usize, r as usize), cell), ())]
                        *cell == old(self)@[l][c][r] && *final(cell) == final(self)@[l][c][r]
                            && call_ensures(func, ((c as usize, r as usize), cell), ())
                } else {
                    final(self)@[l][c][r] == old(self)@[l][c][r]
                },
    {
        let (col_left, row_bottom, col_right, row_top) = self.get_edges(left, bottom, right, top);
        if col_left > col_right || row_bottom > row_top || layer >= self.layers {
            return ;
        }
        let mut f = func;
        let ghost before = self@;
        let ghost e = (col_left, row_bottom, col_right, row_top);
        let ghost columns = self.columns() as int;
        let ghost rows = self.rows() as int;
        let ghost layers = self.layers() as int;
        assert(is_corner(e, col_left as int, row_bottom as int));
        self.modify_cell(col_left, row_bottom, layer, &mut f);
        proof {
            lemma_with_cell_keeps_shape(
                before,
                columns,
                rows,
                layers,
                col_left as int,
                row_bottom as int,
                layer as int,
                self@[layer as int][col_left as int][row_bottom as int],
            );
        }
        if col_right != col_left {
            let ghost cells = self@;
            assert(is_corner(e, col_right as int, row_bottom as int));
            self.modify_cell(col_right, row_bottom, layer, &mut f);
            proof {
                lemma_with_cell_keeps_shape(
                    cells,
                    columns,
                    rows,
                    layers,
                    col_right as int,
                    row_bottom as int,
                    layer as int,
                    self@[layer as int][col_right as int][row_bottom as int],
                );
            }
        }
        if row_top != row_bottom {
            let ghost cells = self@;
            assert(is_corner(e, col_left as int, row_top as int));
            self.modify_cell(col_left, row_top, layer, &mut f);
            proof {
                lemma_with_cell_keeps_shape(
                    cells,
                    columns,
                    rows,
                    layers,
                    col_left as int,
                    row_top as int,
                    layer as int,
                    self@[layer as int][col_left as int][row_top as int],
                );
            }
            if col_right != col_left {
                let ghost cells = self@;
                assert(is_corner(e, col_right as int, row_top as int));
                self.modify_cell(col_right, row_top, layer, &mut f);
                proof {
                    lemma_with_cell_keeps_shape(
                        cells,
                        columns,
                        rows,
                        layers,
                        col_right as int,
                        row_top as int,
                        layer as int,
                        self@[layer as int][col_right as int][row_top as int],
                    );
                }
            }
        }
    }

    /// Returns a reference to the underlying storage, indexed by layer,
    /// column and row.
    pub fn raw_data(&self) -> (r: &Vec<Vec<Vec<V>>>)
        ensures
            cells_of(*r) == self@,
    {
        &self.data
    }

    /// Returns a mutable reference to the underlying storage, indexed by
    /// layer, column and row. The grid holds whatever the caller leaves in
    /// it, so its invariant is kept only if the storage keeps its shape.
    pub fn raw_data_mut(&mut self) -> (r: &mut Vec<Vec<Vec<V>>>)
        ensures
            cells_of(*r) == old(self)@,
            final(self)@ == cells_of(*final(r)),
            final(self).same_geometry(old(self)),
    {
        &mut self.data
    }
}

impl<V: Clone> Clone for Grid<V> {
    /// A grid of the same geometry whose cells hold clones of these cells.
    fn clone(&self) -> (r: Self)
        ensures
            r.same_geometry(self),
            self.wf() ==> r.wf(),
            r@.len() == self@.len(),
            forall|l: int, c: int, k: int|
                self.wf() && 0 <= l < self.layers() && 0 <= c < self.columns() && 0 <= k
                    < self.rows() ==> cloned(self@[l][c][k], #[trigger] r@[l][c][k]),
    {
        let data = self.data.clone();
        proof {
            if self.wf() {
                assert forall|l: int| 0 <= l < self.layers() implies (#[trigger] data@[l]).len()
                    == self.columns() && (forall|c: int|
                    0 <= c < self.columns() ==> (#[trigger] data@[l]@[c]).len() == self.rows() && (
                    forall|k: int|
                        0 <= k < self.rows() ==> cloned(
                            self.data@[l]@[c]@[k],
                            #[trigger] data@[l]@[c]@[k],
                        ))) by {
                    assert(cloned(self.data@[l], data@[l]));
                    assert(self@[l].len() == self.columns());
                    assert forall|c: int| 0 <= c < self.columns() implies (
                    #[trigger] data@[l]@[c]).len() == self.rows() && (forall|k: int|
                        0 <= k < self.rows() ==> cloned(
                            self.data@[l]@[c]@[k],
                            #[trigger] data@[l]@[c]@[k],
                        )) by {
                        assert(cloned(self.data@[l]@[c], data@[l]@[c]));
                        assert(self@[l][c].len() == self.rows());
                    }
                }
            }
        }
        Self {
            x: self.x,
            y: self.y,
            width: self.width,
            height: self.height,
            cell_width: self.cell_width,
            cell_height: self.cell_height,
            columns: self.columns,
            rows: self.rows,
            layers: self.layers,
            offset_x: self.offset_x,
            offset_y: self.offset_y,
            data,
        }
    }
}

/// A point inside the extent of a grid is found in a cell that exists, and
/// that cell is the one whose physical extent holds the point: column `c`
/// spans the horizontal distances from `c * width / columns` up to, but not
/// including, `(c + 1) * width / columns` from the left edge, and row `r`
/// the vertical distances likewise. So what is written through
/// `get_cell_mut` at a point is found again by dividing the point's distance
/// from the lower-left corner by the cell size.
pub proof fn lemma_point_lies_in_its_cell<V>(grid: Grid<V>, x: int, y: int, layer: int)
    requires
        grid.wf(),
        0 <= x + grid.offset_x() < grid.width(),
        0 <= y + grid.offset_y() < grid.height(),
        0 <= layer < grid.layers(),
    ensures
        grid.cell_coords(x, y) is Some,
        grid.has_cell(
            grid.cell_coords(x, y).unwrap().0 as int,
            grid.cell_coords(x, y).unwrap().1 as int,
            layer,
        ),
        grid.cell_coords(x, y).unwrap().0 == ((x + grid.offset_x()) * grid.columns())
            / grid.width() as int,
        grid.cell_coords(x, y).unwrap().1 == ((y + grid.offset_y()) * grid.rows())
            / grid.height() as int,
        grid.cell_coords(x, y).unwrap().0 * grid.width() <= (x + grid.offset_x()) * grid.columns()
            < (grid.cell_coords(x, y).unwrap().0 + 1) * grid.width(),
        grid.cell_coords(x, y).unwrap().1 * grid.height() <= (y + grid.offset_y()) * grid.rows()
            < (grid.cell_coords(x, y).unwrap().1 + 1) * grid.height(),
{
    let px = x + grid.offset_x();
    let py = y + grid.offset_y();
    lemma_inside_is_in_bounds(px, grid.width() as int, grid.columns() as int);
    lemma_inside_is_in_bounds(py, grid.height() as int, grid.rows() as int);
    lemma_cell_holds_point(px, grid.width() as int, grid.columns() as int);
    lemma_cell_holds_point(py, grid.height() as int, grid.rows() as int);
    let col = grid.cell_coords(x, y).unwrap().0 as int;
    assert(grid@[layer].len() == grid.columns());
    assert(grid@[layer][col].len() == grid.rows());
}

/// A rectangle that is a single point inside the extent of a grid overlaps
/// exactly the cell in which the point is found.
pub proof fn lemma_point_rect_is_its_cell<V>(grid: Grid<V>, x: int, y: int)
    requires
        grid.wf(),
        0 <= x + grid.offset_x() < grid.width(),
        0 <= y + grid.offset_y() < grid.height(),
    ensures
        grid.cell_coords(x, y) is Some,
        grid.coords_in_rect(x, y, x, y) == seq![grid.cell_coords(x, y).unwrap()],
{
    lemma_inside_is_in_bounds(x + grid.offset_x(), grid.width() as int, grid.columns() as int);
    lemma_inside_is_in_bounds(y + grid.offset_y(), grid.height() as int, grid.rows() as int);
    let at = grid.cell_coords(x, y).unwrap();
    let e = grid.edges(x, y, x, y);
    assert(e == (at.0, at.1, at.0, at.1));
    assert(rect_len(at.0 as int, at.1 as int, at.0 as int, at.1 as int) == 1) by (nonlinear_arith);
    assert(0int % 1 == 0 && 0int / 1 == 0) by (nonlinear_arith);
    assert(grid.coords_in_rect(x, y, x, y) =~= seq![at]);
}

/// A rectangle that lies to one side of a grid overlaps the cells along
/// that side: all of it left of the grid gives the first column for both
/// edges, all of it right of the grid the last column, and likewise the
/// first row below the grid and the last row above it.
pub proof fn lemma_rect_beside_grid<V>(grid: Grid<V>, left: int, bottom: int, right: int, top: int)
    requires
        grid.wf(),
        0 < grid.width(),
        0 < grid.height(),
        left <= right,
        bottom <= top,
    ensures
        right + grid.offset_x() < 0 ==> grid.edges(left, bottom, right, top).0 == 0 && grid.edges(
            left,
            bottom,
            right,
            top,
        ).2 == 0,
        left + grid.offset_x() >= grid.width() ==> grid.edges(left, bottom, right, top).0
            == grid.columns() - 1 && grid.edges(left, bottom, right, top).2 == grid.columns() - 1,
        top + grid.offset_y() < 0 ==> grid.edges(left, bottom, right, top).1 == 0 && grid.edges(
            left,
            bottom,
            right,
            top,
        ).3 == 0,
        bottom + grid.offset_y() >= grid.height() ==> grid.edges(left, bottom, right, top).1
            == grid.rows() - 1 && grid.edges(left, bottom, right, top).3 == grid.rows() - 1,
{
    let w = grid.width() as int;
    let h = grid.height() as int;
    let cols = grid.columns() as int;
    let rows = grid.rows() as int;
    lemma_outside_is_clamped(left + grid.offset_x(), w, cols);
    lemma_outside_is_clamped(right + grid.offset_x(), w, cols);
    lemma_outside_is_clamped(bottom + grid.offset_y(), h, rows);
    lemma_outside_is_clamped(top + grid.offset_y(), h, rows);
}

/// A rectangle whose edges are in order overlaps at least one cell, and
/// every cell that it overlaps exists: no rectangle is an error, wherever
/// it lies.
pub proof fn lemma_rect_overlaps_cells<V>(
    grid: Grid<V>,
    left: int,
    bottom: int,
    right: int,
    top: int,
    k: int,
)
    requires
        grid.wf(),
        left <= right,
        bottom <= top,
        0 <= k < grid.coords_in_rect(left, bottom, right, top).len(),
    ensures
        grid.edges(left, bottom, right, top).0 <= grid.edges(left, bottom, right, top).2
            < grid.columns(),
        grid.edges(left, bottom, right, top).1 <= grid.edges(left, bottom, right, top).3
            < grid.rows(),
        grid.coords_in_rect(left, bottom, right, top).len() >= 1,
        grid.coords_in_rect(left, bottom, right, top)[k].0 < grid.columns(),
        grid.coords_in_rect(left, bottom, right, top)[k].1 < grid.rows(),
{
    lemma_rect_is_not_empty(grid, left, bottom, right, top);
    let e = grid.edges(left, bottom, right, top);
    lemma_rect_cell_inside(e.0 as int, e.1 as int, e.2 as int, e.3 as int, true, k);
}

/// A rectangle whose edges are in order overlaps at least one cell.
pub proof fn lemma_rect_is_not_empty<V>(grid: Grid<V>, left: int, bottom: int, right: int, top: int)
    requires
        grid.wf(),
        left <= right,
        bottom <= top,
    ensures
        grid.edges(left, bottom, right, top).0 <= grid.edges(left, bottom, right, top).2
            < grid.columns(),
        grid.edges(left, bottom, right, top).1 <= grid.edges(left, bottom, right, top).3
            < grid.rows(),
        grid.coords_in_rect(left, bottom, right, top).len() >= 1,
{
    lemma_cell_index_is_ordered(
        left + grid.offset_x(),
        right + grid.offset_x(),
        grid.width() as int,
        grid.columns() as int,
    );
    lemma_cell_index_is_ordered(
        bottom + grid.offset_y(),
        top + grid.offset_y(),
        grid.height() as int,
        grid.rows() as int,
    );
    let e = grid.edges(left, bottom, right, top);
    assert((e.2 - e.0 + 1) * (e.3 - e.1 + 1) >= 1) by (nonlinear_arith)
        requires
            e.0 <= e.2,
            e.1 <= e.3,
    ;
}

/// A rectangle that lies inside one cell has that cell as its only corner,
/// so `modify_in_rect` applies its function to that cell once and to no
/// other cell.
pub proof fn lemma_rect_in_one_cell_has_one_corner<V>(
    grid: Grid<V>,
    left: int,
    bottom: int,
    right: int,
    top: int,
    col: int,
    row: int,
)
    requires
        grid.wf(),
        grid.edges(left, bottom, right, top).0 == grid.edges(left, bottom, right, top).2,
        grid.edges(left, bottom, right, top).1 == grid.edges(left, bottom, right, top).3,
    ensures
        is_corner(grid.edges(left, bottom, right, top), col, row) <==> col == grid.edges(
            left,
            bottom,
            right,
            top,
        ).0 && row == grid.edges(left, bottom, right, top).1,
        grid.coords_in_rect(left, bottom, right, top).len() == 1,
{
    let e = grid.edges(left, bottom, right, top);
    assert((e.2 - e.0 + 1) * (e.3 - e.1 + 1) == 1) by (nonlinear_arith)
        requires
            e.0 == e.2,
            e.1 == e.3,
    ;
}

/// Whether each cell of `layer` holds its row times the number of columns
/// plus its column: the step in which a walk from the bottom row upwards
/// reaches it.
pub open spec fn is_numbered(grid: Grid<usize>, layer: int) -> bool {
    forall|c: int, r: int|
        0 <= c < grid.columns() && 0 <= r < grid.rows() ==> #[trigger] grid@[layer][c][r] == r
            * grid.columns() + c
}

/// A walk over the whole of a numbered layer from the bottom row upwards
/// yields 0, 1, 2 and so on up to the last cell. From the top row downwards
/// it yields the same rows in reverse: in step `k` the value of column
/// `k % columns` in row `rows - 1 - k / columns`.
pub proof fn lemma_scan_order(grid: Grid<usize>, layer: int)
    requires
        grid.wf(),
        0 <= layer < grid.layers(),
        is_numbered(grid, layer),
    ensures
        grid.all_coords(true).len() == grid.columns() * grid.rows(),
        grid.all_coords(false).len() == grid.columns() * grid.rows(),
        forall|k: int|
            0 <= k < grid.columns() * grid.rows() ==> #[trigger] grid.values_at(
                layer,
                grid.all_coords(true),
            )[k] == k,
        forall|k: int|
            0 <= k < grid.columns() * grid.rows() ==> #[trigger] grid.values_at(
                layer,
                grid.all_coords(false),
            )[k] == (grid.rows() - 1 - k / (grid.columns() as int)) * grid.columns() + k % (
            grid.columns() as int),
{
    let cols = grid.columns() as int;
    let rows = grid.rows() as int;
    assert(rect_len(0, 0, cols - 1, rows - 1) == cols * rows);
    assert forall|k: int| 0 <= k < cols * rows implies #[trigger] grid.values_at(
        layer,
        grid.all_coords(true),
    )[k] == k by {
        lemma_rect_cell_inside(0, 0, cols - 1, rows - 1, true, k);
        vstd::arithmetic::div_mod::lemma_fundamental_div_mod(k, cols);
        assert(cols * (k / cols) == (k / cols) * cols) by (nonlinear_arith);
        let at = grid.all_coords(true)[k];
        assert(grid@[layer][at.0 as int][at.1 as int] == at.1 * cols + at.0);
    }
    assert forall|k: int| 0 <= k < cols * rows implies #[trigger] grid.values_at(
        layer,
        grid.all_coords(false),
    )[k] == (rows - 1 - k / cols) * cols + k % cols by {
        lemma_rect_cell_inside(0, 0, cols - 1, rows - 1, false, k);
        assert(0 <= k / cols < rows) by (nonlinear_arith)
            requires
                0 <= k < cols * rows,
                0 < cols,
        ;
        vstd::arithmetic::div_mod::lemma_mod_bound(k, cols);
        let at = grid.all_coords(false)[k];
        assert(grid@[layer][at.0 as int][at.1 as int] == at.1 * cols + at.0);
    }
}

/// Writing a value into a cell that exists keeps the shape of the storage.
pub proof fn lemma_with_cell_keeps_shape<V>(
    cells: Seq<Seq<Seq<V>>>,
    columns: int,
    rows: int,
    layers: int,
    col: int,
    row: int,
    layer: int,
    value: V,
)
    requires
        has_shape(cells, columns, rows, layers),
        0 <= layer < layers,
        0 <= col < columns,
        0 <= row < rows,
    ensures
        has_shape(with_cell(cells, col, row, layer, value), columns, rows, layers),
        with_cell(cells, col, row, layer, value)[layer][col][row] == value,
        forall|l: int, c: int, r: int|
            0 <= l < layers && 0 <= c < columns && 0 <= r < rows && (l != layer || c != col || r
                != row) ==> #[trigger] with_cell(cells, col, row, layer, value)[l][c][r]
                == cells[l][c][r],
{
    let after = with_cell(cells, col, row, layer, value);
    assert forall|l: int| 0 <= l < layers implies (#[trigger] after[l]).len() == columns by {
        assert(cells[l].len() == columns);
    }
    assert forall|l: int, c: int| 0 <= l < layers && 0 <= c < columns implies (#[trigger] after[l][c]).len()
        == rows by {
        assert(cells[l][c].len() == rows);
    }
}

} // verus!
