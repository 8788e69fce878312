use spatial_grid::{Grid, PIVOT_FULL};

/// A grid of 100 x 100 units in 10 x 10 cells whose cells hold their own
/// (column, row).
fn labelled(centered: bool) -> Grid<(usize, usize)> {
    let mut grid = Grid::<(usize, usize)>::new(100, 100, 10, 10, 1, centered, || (0, 0));
    for col in 0..grid.columns() {
        for row in 0..grid.rows() {
            if let Some(cell) = grid.get_cell_by_indices_mut(col, row, 0) {
                *cell = (col, row);
            }
        }
    }
    grid
}

/// A grid whose cells of layer 0 hold row * columns + column.
fn numbered(columns: usize, rows: usize) -> Grid<usize> {
    let mut grid = Grid::<usize>::new(100, 100, columns, rows, 1, false, || 0);
    for col in 0..columns {
        for row in 0..rows {
            *grid.get_cell_by_indices_mut(col, row, 0).unwrap() = row * columns + col;
        }
    }
    grid
}

fn collect_coords(mut iter: spatial_grid::IterCoords) -> Vec<(usize, usize)> {
    let mut out = Vec::new();
    while let Some(at) = iter.next() {
        out.push(at);
    }
    out
}

fn collect_values(mut iter: spatial_grid::IterGridRect<'_, usize>) -> Vec<usize> {
    let mut out = Vec::new();
    while let Some(value) = iter.next() {
        out.push(*value);
    }
    out
}

#[test]
fn new_calls_the_factory_once_for_each_cell() {
    let mut calls = 0;
    let grid = Grid::<usize>::new(10, 10, 3, 4, 2, false, || {
        calls += 1;
        calls
    });
    assert_eq!(calls, 24);
    assert_eq!(grid.columns(), 3);
    assert_eq!(grid.rows(), 4);
    assert_eq!(grid.layers(), 2);
    assert_eq!(grid.raw_data().len(), 2);
    assert_eq!(grid.raw_data()[0].len(), 3);
    assert_eq!(grid.raw_data()[1][2].len(), 4);
    let mut seen: Vec<usize> = grid.raw_data().iter().flatten().flatten().copied().collect();
    seen.sort();
    assert_eq!(seen, (1..=24).collect::<Vec<usize>>());
}

#[test]
fn new_places_the_pivot() {
    let corner = Grid::<u8>::new(100, 80, 10, 10, 1, false, || 0);
    assert_eq!((corner.x, corner.y), (0, 0));
    assert_eq!((corner.width(), corner.height()), (100, 80));
    assert_eq!((corner.offset_x(), corner.offset_y()), (0, 0));
    assert_eq!((corner.cell_width(), corner.cell_height()), (10, 8));
    assert_eq!((corner.left(), corner.right()), (0, 100));
    assert_eq!((corner.bottom(), corner.top()), (0, 80));

    let centered = Grid::<u8>::new(100, 80, 10, 10, 1, true, || 0);
    assert_eq!((centered.offset_x(), centered.offset_y()), (50, 40));
    assert_eq!((centered.left(), centered.right()), (-50, 50));
    assert_eq!((centered.bottom(), centered.top()), (-40, 40));

    let odd = Grid::<u8>::new(101, 7, 10, 10, 1, true, || 0);
    assert_eq!((odd.offset_x(), odd.offset_y()), (50, 3));
}

#[test]
fn edges_follow_the_position() {
    let mut grid = Grid::<u8>::new(100, 100, 10, 10, 1, true, || 0);
    grid.x = 7;
    grid.y = -3;
    assert_eq!(grid.left(), -43);
    assert_eq!(grid.right(), 57);
    assert_eq!(grid.bottom(), -53);
    assert_eq!(grid.top(), 47);

    let mut far = Grid::<u8>::new(i32::MAX, i32::MAX, 1, 1, 1, false, || 0);
    far.x = i32::MAX;
    far.y = i32::MIN;
    assert_eq!(far.right(), 2 * (i32::MAX as i64));
    far.set_pivot(PIVOT_FULL, PIVOT_FULL);
    assert_eq!(far.bottom(), i32::MIN as i64 - i32::MAX as i64);
}

#[test]
fn set_pivot_takes_a_fraction_of_the_extent() {
    let mut grid = Grid::<u8>::new(100, 80, 10, 10, 1, false, || 0);
    grid.set_pivot(PIVOT_FULL, 250_000);
    assert_eq!((grid.offset_x(), grid.offset_y()), (100, 20));
    grid.set_pivot(333_333, 0);
    assert_eq!((grid.offset_x(), grid.offset_y()), (33, 0));
    grid.set_pivot(PIVOT_FULL / 2, PIVOT_FULL / 2);
    assert_eq!((grid.offset_x(), grid.offset_y()), (50, 40));
    assert_eq!((grid.width(), grid.height()), (100, 80));
}

#[test]
fn resize_keeps_the_pivot_in_place() {
    let mut grid = Grid::<u8>::new(100, 100, 10, 10, 1, false, || 0);
    grid.set_pivot(250_000, 750_000);
    grid.resize(1000, 200);
    assert_eq!((grid.offset_x(), grid.offset_y()), (250, 150));
    assert_eq!((grid.cell_width(), grid.cell_height()), (100, 20));
    assert_eq!((grid.columns(), grid.rows(), grid.layers()), (10, 10, 1));
}

#[test]
fn resize_rounds_down() {
    let mut grid = Grid::<u8>::new(100, 100, 10, 10, 1, true, || 0);
    grid.resize(33, 7);
    assert_eq!((grid.width(), grid.height()), (33, 7));
    assert_eq!((grid.offset_x(), grid.offset_y()), (16, 3));
    assert_eq!((grid.cell_width(), grid.cell_height()), (3, 0));
}

#[test]
fn resize_from_no_extent_leaves_the_pivot_in_the_corner() {
    let mut grid = Grid::<u8>::new(0, 0, 10, 10, 1, true, || 0);
    assert_eq!((grid.offset_x(), grid.offset_y()), (0, 0));
    grid.resize(100, 100);
    assert_eq!((grid.offset_x(), grid.offset_y()), (0, 0));
    assert_eq!((grid.cell_width(), grid.cell_height()), (10, 10));
}

#[test]
fn resize_keeps_the_cells() {
    let mut grid = labelled(true);
    grid.resize(1000, 200);
    assert_eq!(grid.get_cell_by_indices(3, 4, 0), Some(&(3, 4)));
    assert_eq!(grid.get_cell(-500, -100, 0), Some(&(0, 0)));
    assert_eq!(grid.get_cell(499, 99, 0), Some(&(9, 9)));
}

#[test]
fn cells_are_cut_exactly() {
    let grid = Grid::<u8>::new(100, 100, 3, 7, 1, false, || 0);
    assert_eq!(grid.cell_width(), 33);
    assert_eq!(grid.cell_height(), 14);
    assert_eq!(grid.get_cell_coords(33, 14), Some((0, 0)));
    assert_eq!(grid.get_cell_coords(34, 15), Some((1, 1)));
    assert_eq!(grid.get_cell_coords(66, 28), Some((1, 1)));
    assert_eq!(grid.get_cell_coords(67, 29), Some((2, 2)));
    assert_eq!(grid.get_cell_coords(99, 99), Some((2, 6)));
    assert_eq!(grid.get_cell_coords(100, 100), Some((3, 7)));
    assert!(grid.get_cell(99, 99, 0).is_some());
    assert!(grid.get_cell(100, 99, 0).is_none());
    assert!(grid.get_cell(99, 100, 0).is_none());
}

#[test]
fn points_left_of_or_below_the_grid_have_no_cell() {
    let grid = labelled(false);
    assert_eq!(grid.get_cell(-10, 20, 0), None);
    assert_eq!(grid.get_cell_coords(-10, 20), None);
    assert_eq!(grid.get_cell_coords(-1, 5), None);
    assert_eq!(grid.get_cell_coords(5, -1), None);
    assert_eq!(grid.get_cell_coords(0, 0), Some((0, 0)));

    let centered = labelled(true);
    assert_eq!(centered.get_cell_coords(-10, 20), Some((4, 7)));
    assert_eq!(centered.get_cell(-10, 20, 0), Some(&(4, 7)));
    assert_eq!(centered.get_cell_coords(-51, 0), None);
    assert_eq!(centered.get_cell_coords(0, -51), None);
    assert_eq!(centered.get_cell_coords(-50, -50), Some((0, 0)));
}

#[test]
fn points_right_of_or_above_the_grid_have_no_cell() {
    let grid = labelled(false);
    assert_eq!(grid.get_cell_coords(10, 200), Some((1, 20)));
    assert_eq!(grid.get_cell(10, 200, 0), None);
    assert_eq!(grid.get_cell(100, 10, 0), None);
    assert_eq!(grid.get_cell(99, 99, 0), Some(&(9, 9)));
}

#[test]
fn far_points_saturate() {
    let grid = Grid::<u8>::new(1, 1, 4, 4, 1, false, || 0);
    assert_eq!(grid.get_cell_coords(i64::MAX, 0), Some((usize::MAX, 0)));
    assert_eq!(grid.get_cell_coords(0, i64::MAX), Some((0, usize::MAX)));
    assert_eq!(grid.get_cell(i64::MAX, i64::MAX, 0), None);
    assert_eq!(grid.get_cell_coords(i64::MIN, 0), None);
    assert_eq!(grid.get_edges(i64::MIN, i64::MIN, i64::MAX, i64::MAX), (0, 0, 3, 3));
}

#[test]
fn a_grid_without_extent_keeps_only_its_corner() {
    let grid = Grid::<u8>::new(0, 0, 4, 4, 1, false, || 5);
    assert_eq!((grid.cell_width(), grid.cell_height()), (0, 0));
    assert_eq!(grid.get_cell_coords(0, 0), Some((0, 0)));
    assert_eq!(grid.get_cell(0, 0, 0), Some(&5));
    assert_eq!(grid.get_cell_coords(5, 0), Some((usize::MAX, 0)));
    assert_eq!(grid.get_cell(5, 0, 0), None);
    assert_eq!(grid.get_cell_coords(-1, 0), None);
    assert_eq!(grid.get_edges(-5, -5, 5, 5), (0, 0, 3, 3));
    assert_eq!(grid.get_edges(0, 0, 0, 0), (0, 0, 0, 0));
}

#[test]
fn edges_are_forced_into_the_grid() {
    let grid = labelled(false);
    assert_eq!(grid.get_edges(25, 35, 65, 115), (2, 3, 6, 9));
    assert_eq!(grid.get_edges(-25, -25, 5, 5), (0, 0, 0, 0));
    assert_eq!(grid.get_edges(95, 95, 125, 125), (9, 9, 9, 9));
    assert_eq!(grid.get_edges(-300, -300, -200, -200), (0, 0, 0, 0));
    assert_eq!(grid.get_edges(500, 500, 600, 600), (9, 9, 9, 9));
    assert_eq!(grid.get_edges(0, 0, 100, 100), (0, 0, 9, 9));
    assert_eq!(grid.get_edges(65, 115, 25, 35), (6, 9, 2, 3));

    let centered = labelled(true);
    assert_eq!(centered.get_edges(-50, -50, 49, 49), (0, 0, 9, 9));
    assert_eq!(centered.get_edges(-25, -15, 15, 65), (2, 3, 6, 9));
}

#[test]
fn a_rectangle_beside_the_grid_yields_the_nearest_cells() {
    let grid = labelled(false);
    assert_eq!(collect_coords(grid.iter_coords_in_rect(-300, -300, -200, -200)), vec![(0, 0)]);
    assert_eq!(collect_coords(grid.iter_coords_in_rect(500, 500, 600, 600)), vec![(9, 9)]);
    assert_eq!(
        collect_coords(grid.iter_coords_in_rect(500, 20, 600, 45)),
        vec![(9, 2), (9, 3), (9, 4)]
    );
    assert_eq!(
        collect_coords(grid.iter_coords_in_rect(20, -60, 45, -50)),
        vec![(2, 0), (3, 0), (4, 0)]
    );
    let mut cells = grid.iter_cells_in_rect(-300, 500, -200, 600, 0);
    assert_eq!(cells.next(), Some(&(0, 9)));
    assert_eq!(cells.next(), None);
    assert_eq!(cells.next(), None);
}

#[test]
fn an_inverted_rectangle_is_empty() {
    let grid = labelled(false);
    assert_eq!(collect_coords(grid.iter_coords_in_rect(65, 35, 25, 115)), vec![]);
    assert_eq!(collect_coords(grid.iter_coords_in_rect(25, 115, 65, 35)), vec![]);
    assert_eq!(collect_coords(grid.iter_coords_in_rect(65, 35, 25, 115).y_down()), vec![]);
    assert_eq!(collect_coords(grid.iter_info_in_rect(65, 115, 25, 35)), vec![]);
    assert_eq!(grid.iter_cells_in_rect(65, 35, 25, 115, 0).next(), None);
    assert_eq!(grid.iter_cells_in_rect(25, 115, 65, 35, 0).y_down().next(), None);
    assert!(grid.iter_cells_in_rect(65, 35, 25, 115, 0).enumerate_coords().next().is_none());
}

#[test]
fn coords_come_row_by_row() {
    let grid = labelled(false);
    assert_eq!(
        collect_coords(grid.iter_coords_in_rect(0, 0, 15, 25)),
        vec![(0, 0), (1, 0), (0, 1), (1, 1), (0, 2), (1, 2)]
    );
    assert_eq!(
        collect_coords(grid.iter_coords_in_rect(0, 0, 15, 25).y_down()),
        vec![(0, 2), (1, 2), (0, 1), (1, 1), (0, 0), (1, 0)]
    );
    assert_eq!(
        collect_coords(grid.iter_info_in_rect(42, 71, 58, 71)),
        vec![(4, 7), (5, 7)]
    );
    assert_eq!(
        collect_coords(grid.iter_info_in_rect(42, 71, 42, 95).y_down()),
        vec![(4, 9), (4, 8), (4, 7)]
    );
}

#[test]
fn an_ended_walk_stays_ended() {
    let grid = labelled(false);
    let mut iter = grid.iter_coords_in_rect(5, 5, 5, 5);
    assert_eq!(iter.next(), Some((0, 0)));
    assert_eq!(iter.next(), None);
    assert_eq!(iter.next(), None);
    let mut down = grid.iter_coords_in_rect(5, 5, 5, 15).y_down();
    assert_eq!(down.next(), Some((0, 1)));
    assert_eq!(down.next(), Some((0, 0)));
    assert_eq!(down.next(), None);
    assert_eq!(down.next(), None);
}

#[test]
fn advance_skips_a_cell() {
    let grid = labelled(false);
    let mut coords = grid.iter_coords_in_rect(0, 0, 15, 25);
    coords.advance();
    assert_eq!(coords.next(), Some((1, 0)));
    coords.advance();
    assert_eq!(coords.next(), Some((1, 1)));

    let mut cells = grid.iter_cells_in_rect(0, 0, 15, 25, 0).y_down();
    cells.advance();
    cells.advance();
    assert_eq!(cells.next(), Some(&(0, 1)));
}

#[test]
fn a_cloned_walk_goes_its_own_way() {
    let grid = labelled(false);
    let mut first = grid.iter_coords_in_rect(0, 0, 15, 25);
    assert_eq!(first.next(), Some((0, 0)));
    let mut second = first.clone();
    assert_eq!(first.next(), Some((1, 0)));
    assert_eq!(first.next(), Some((0, 1)));
    assert_eq!(second.next(), Some((1, 0)));
}

#[test]
fn a_full_walk_yields_the_numbers_in_order() {
    let grid = numbered(4, 3);
    assert_eq!(collect_values(grid.iter_all_cells(0)), (0..12).collect::<Vec<usize>>());
    assert_eq!(
        collect_values(grid.iter_all_cells(0).y_down()),
        vec![8, 9, 10, 11, 4, 5, 6, 7, 0, 1, 2, 3]
    );
    assert_eq!(
        collect_values(grid.iter_cells_in_rect(0, 0, 100, 100, 0)),
        (0..12).collect::<Vec<usize>>()
    );
    assert_eq!(
        collect_values(grid.iter_cells_in_rect(-5, -5, 400, 400, 0).y_down()),
        vec![8, 9, 10, 11, 4, 5, 6, 7, 0, 1, 2, 3]
    );
}

#[test]
fn a_walk_over_part_of_the_grid_yields_that_part() {
    let grid = numbered(10, 10);
    assert_eq!(
        collect_values(grid.iter_cells_in_rect(25, 35, 45, 55, 0)),
        vec![32, 33, 34, 42, 43, 44, 52, 53, 54]
    );
    assert_eq!(
        collect_values(grid.iter_cells_in_rect(25, 35, 45, 55, 0).y_down()),
        vec![52, 53, 54, 42, 43, 44, 32, 33, 34]
    );
}

#[test]
fn a_layer_that_the_grid_lacks_yields_nothing() {
    let grid = numbered(4, 3);
    assert_eq!(grid.layers(), 1);
    assert_eq!(collect_values(grid.iter_all_cells(1)), vec![]);
    assert_eq!(collect_values(grid.iter_cells_in_rect(0, 0, 100, 100, 5)), vec![]);
    assert_eq!(collect_values(grid.iter_cells_in_rect(0, 0, 100, 100, 5).y_down()), vec![]);
    assert!(grid.iter_all_cells(1).enumerate_coords().next().is_none());
    assert_eq!(grid.get_cell_by_indices(0, 0, 1), None);
    assert_eq!(grid.get_cell(10, 10, 1), None);
}

#[test]
fn cells_outside_the_storage_are_absent() {
    let mut grid = numbered(4, 3);
    assert_eq!(grid.get_cell_by_indices(3, 2, 0), Some(&11));
    assert_eq!(grid.get_cell_by_indices(4, 2, 0), None);
    assert_eq!(grid.get_cell_by_indices(3, 3, 0), None);
    assert_eq!(grid.get_cell_by_indices(usize::MAX, usize::MAX, usize::MAX), None);
    assert!(grid.get_cell_by_indices_mut(4, 0, 0).is_none());
    assert!(grid.get_cell_by_indices_mut(0, 3, 0).is_none());
    assert!(grid.get_cell_by_indices_mut(0, 0, 1).is_none());
    assert!(grid.get_cell_mut(-1, 0, 0).is_none());
    assert!(grid.get_cell_mut(100, 0, 0).is_none());
    assert!(grid.get_cell_mut(0, 0, 1).is_none());
    assert_eq!(collect_values(grid.iter_all_cells(0)), (0..12).collect::<Vec<usize>>());
}

#[test]
fn layers_are_apart() {
    let mut grid = Grid::<u8>::new(100, 100, 10, 10, 3, false, || 0);
    *grid.get_cell_mut(15, 25, 1).unwrap() = 7;
    *grid.get_cell_by_indices_mut(1, 2, 2).unwrap() = 9;
    assert_eq!(grid.get_cell(15, 25, 0), Some(&0));
    assert_eq!(grid.get_cell(15, 25, 1), Some(&7));
    assert_eq!(grid.get_cell(15, 25, 2), Some(&9));
    assert_eq!(grid.iter_cells_in_rect(15, 25, 15, 25, 1).next(), Some(&7));
    assert_eq!(grid.iter_cells_in_rect(15, 25, 15, 25, 2).next(), Some(&9));
    assert_eq!(grid.iter_cells_in_rect(15, 25, 15, 25, 0).next(), Some(&0));
}

#[test]
fn a_point_is_written_where_it_is_found() {
    let mut grid = Grid::<Option<(i64, i64)>>::new(100, 100, 10, 10, 1, true, || None);
    *grid.get_cell_mut(-37, 12, 0).unwrap() = Some((-37, 12));
    assert_eq!(grid.get_cell_by_indices(1, 6, 0), Some(&Some((-37, 12))));
    assert_eq!(grid.get_cell(-31, 19, 0), Some(&Some((-37, 12))));
    assert_eq!(grid.get_cell(-30, 19, 0), Some(&None));
    let filled = grid.raw_data()[0].iter().flatten().filter(|cell| cell.is_some()).count();
    assert_eq!(filled, 1);

    let mut corner = Grid::<Option<(i64, i64)>>::new(90, 90, 4, 4, 1, false, || None);
    *corner.get_cell_mut(45, 67, 0).unwrap() = Some((45, 67));
    assert_eq!(corner.get_cell_by_indices(2, 2, 0), Some(&Some((45, 67))));
    assert_eq!(corner.get_cell_by_indices(2, 3, 0), Some(&None));
}

#[test]
fn cells_come_with_their_coords() {
    let grid = labelled(false);
    let mut iter = grid.iter_cells_in_rect(25, 35, 45, 55, 0).enumerate_coords();
    let mut seen = Vec::new();
    while let Some((value, col, row)) = iter.next() {
        assert_eq!(*value, (col, row));
        seen.push((col, row));
    }
    assert_eq!(
        seen,
        vec![(2, 3), (3, 3), (4, 3), (2, 4), (3, 4), (4, 4), (2, 5), (3, 5), (4, 5)]
    );

    let mut iter = grid.iter_cells_in_rect(25, 35, 45, 55, 0).y_down().enumerate_coords();
    let mut seen = Vec::new();
    while let Some((value, col, row)) = iter.next() {
        assert_eq!(*value, (col, row));
        seen.push((col, row));
    }
    assert_eq!(
        seen,
        vec![(2, 5), (3, 5), (4, 5), (2, 4), (3, 4), (4, 4), (2, 3), (3, 3), (4, 3)]
    );
    assert!(iter.next().is_none());
}

#[test]
fn modify_all_visits_every_cell_once() {
    let mut grid = Grid::<usize>::new(10, 10, 3, 4, 2, false, || 1);
    let mut calls = 0;
    grid.modify_all(|value| {
        calls += 1;
        *value += calls;
    });
    assert_eq!(calls, 24);
    let mut seen: Vec<usize> = grid.raw_data().iter().flatten().flatten().copied().collect();
    assert_eq!(seen[0], 2);
    assert_eq!(grid.get_cell_by_indices(0, 1, 0), Some(&3));
    assert_eq!(grid.get_cell_by_indices(1, 0, 0), Some(&6));
    assert_eq!(grid.get_cell_by_indices(0, 0, 1), Some(&14));
    seen.sort();
    assert_eq!(seen, (2..=25).collect::<Vec<usize>>());
    assert_eq!((grid.columns(), grid.rows(), grid.layers()), (3, 4, 2));
}

#[test]
fn modify_in_rect_inside_one_cell_calls_once() {
    let mut grid = Grid::<usize>::new(100, 100, 10, 10, 1, false, || 0);
    let mut visited = Vec::new();
    grid.modify_in_rect(12, 12, 18, 18, 0, |at, value| {
        visited.push(at);
        *value += 1;
    });
    assert_eq!(visited, vec![(1, 1)]);
    assert_eq!(grid.get_cell_by_indices(1, 1, 0), Some(&1));
    let total: usize = grid.raw_data()[0].iter().flatten().sum();
    assert_eq!(total, 1);

    let mut visited = Vec::new();
    grid.modify_in_rect(15, 15, 15, 15, 0, |at, value| {
        visited.push(at);
        *value += 1;
    });
    assert_eq!(visited, vec![(1, 1)]);
    assert_eq!(grid.get_cell_by_indices(1, 1, 0), Some(&2));
}

#[test]
fn modify_in_rect_visits_each_corner_once() {
    let mut grid = Grid::<usize>::new(100, 100, 10, 10, 1, false, || 0);
    let mut visited = Vec::new();
    grid.modify_in_rect(12, 22, 38, 48, 0, |at, value| {
        visited.push(at);
        *value += 1;
    });
    assert_eq!(visited, vec![(1, 2), (3, 2), (1, 4), (3, 4)]);
    assert_eq!(grid.get_cell_by_indices(1, 2, 0), Some(&1));
    assert_eq!(grid.get_cell_by_indices(3, 2, 0), Some(&1));
    assert_eq!(grid.get_cell_by_indices(1, 4, 0), Some(&1));
    assert_eq!(grid.get_cell_by_indices(3, 4, 0), Some(&1));
    assert_eq!(grid.get_cell_by_indices(2, 3, 0), Some(&0));
    assert_eq!(grid.get_cell_by_indices(2, 2, 0), Some(&0));
    let total: usize = grid.raw_data()[0].iter().flatten().sum();
    assert_eq!(total, 4);

    let mut visited = Vec::new();
    grid.modify_in_rect(12, 22, 38, 28, 0, |at, value| {
        visited.push(at);
        *value += 10;
    });
    assert_eq!(visited, vec![(1, 2), (3, 2)]);
    assert_eq!(grid.get_cell_by_indices(1, 2, 0), Some(&11));

    let mut visited = Vec::new();
    grid.modify_in_rect(12, 22, 18, 48, 0, |at, value| {
        visited.push(at);
        *value += 100;
    });
    assert_eq!(visited, vec![(1, 2), (1, 4)]);
    assert_eq!(grid.get_cell_by_indices(1, 4, 0), Some(&101));
}

#[test]
fn modify_in_rect_beside_the_grid_visits_the_nearest_cell() {
    let mut grid = Grid::<usize>::new(100, 100, 10, 10, 1, false, || 0);
    let mut visited = Vec::new();
    grid.modify_in_rect(-25, -25, 5, 5, 0, |at, value| {
        visited.push(at);
        *value += 1;
    });
    assert_eq!(visited, vec![(0, 0)]);
    let mut visited = Vec::new();
    grid.modify_in_rect(500, 500, 600, 600, 0, |at, value| {
        visited.push(at);
        *value += 1;
    });
    assert_eq!(visited, vec![(9, 9)]);
    assert_eq!(grid.get_cell_by_indices(9, 9, 0), Some(&1));
}

#[test]
fn modify_in_rect_changes_nothing_without_cells() {
    let mut grid = Grid::<usize>::new(100, 100, 10, 10, 1, false, || 0);
    let mut calls = 0;
    grid.modify_in_rect(38, 48, 12, 22, 0, |_, value| {
        calls += 1;
        *value += 1;
    });
    grid.modify_in_rect(12, 22, 38, 48, 1, |_, value| {
        calls += 1;
        *value += 1;
    });
    assert_eq!(calls, 0);
    let total: usize = grid.raw_data()[0].iter().flatten().sum();
    assert_eq!(total, 0);
}

#[test]
fn raw_data_is_the_storage() {
    let mut grid = numbered(4, 3);
    assert_eq!(grid.raw_data()[0][2][1], 6);
    grid.raw_data_mut()[0][2][1] = 60;
    assert_eq!(grid.get_cell_by_indices(2, 1, 0), Some(&60));
    *grid.get_cell_by_indices_mut(3, 0, 0).unwrap() = 30;
    assert_eq!(grid.raw_data()[0][3][0], 30);
    assert_eq!(spatial_grid::IterGridRect::next(&mut grid.iter_cells_in_rect(76, 1, 76, 1, 0)), Some(&30));
}

#[test]
fn a_clone_is_a_grid_of_its_own() {
    let mut grid = numbered(4, 3);
    grid.set_pivot(PIVOT_FULL / 2, 0);
    grid.x = 3;
    grid.y = 4;
    let mut copy = grid.clone();
    assert_eq!((copy.x, copy.y), (3, 4));
    assert_eq!((copy.width(), copy.height()), (100, 100));
    assert_eq!((copy.cell_width(), copy.cell_height()), (25, 33));
    assert_eq!((copy.columns(), copy.rows(), copy.layers()), (4, 3, 1));
    assert_eq!((copy.offset_x(), copy.offset_y()), (50, 0));
    assert_eq!(copy.raw_data(), grid.raw_data());
    *copy.get_cell_by_indices_mut(0, 0, 0).unwrap() = 99;
    assert_eq!(grid.get_cell_by_indices(0, 0, 0), Some(&0));
    assert_eq!(copy.get_cell_by_indices(0, 0, 0), Some(&99));
}
