use rand::Rng;
use spatial_grid::Grid;

#[test]
fn grid_basic() {
    let mut grid = Grid::<Vec<(i64, i64)>>::new(100, 100, 10, 10, 1, false, Vec::new);
    let mut rng = rand::thread_rng();
    for _n in 0..100 {
        let x = rng.gen_range(0..100);
        let y = rng.gen_range(0..100);
        if let Some(container) = grid.get_cell_mut(x, y, 0) {
            container.push((x, y));
        };
    }

    for (i_x, col) in grid.raw_data()[0].iter().enumerate() {
        for (i_y, cell) in col.iter().enumerate() {
            if cell.is_empty() {
                continue;
            }
            for value in cell {
                assert_eq!(value.0.div_euclid(grid.cell_width() as i64) as usize, i_x);
                assert_eq!(value.1.div_euclid(grid.cell_height() as i64) as usize, i_y);
            }
        }
    }
}

#[test]
fn grid_negative_values() {
    let mut grid = Grid::<Vec<(i64, i64)>>::new(100, 100, 10, 10, 1, true, Vec::new);
    let mut rng = rand::thread_rng();
    for _n in 0..100 {
        let x = rng.gen_range(grid.left()..grid.right());
        let y = rng.gen_range(grid.bottom()..grid.top());
        if let Some(container) = grid.get_cell_mut(x, y, 0) {
            container.push((x, y));
        };
    }

    for (i_x, col) in grid.raw_data()[0].iter().enumerate() {
        for (i_y, cell) in col.iter().enumerate() {
            if cell.is_empty() {
                continue;
            }
            for value in cell {
                let col = (value.0 + grid.offset_x() as i64).div_euclid(grid.cell_width() as i64)
                    as usize;
                let row = (value.1 + grid.offset_y() as i64).div_euclid(grid.cell_height() as i64)
                    as usize;
                assert_eq!(col, i_x);
                assert_eq!(row, i_y);
            }
        }
    }
}

#[test]
fn iter_y_up() {
    let mut grid = Grid::<usize>::new(100, 100, 10, 10, 1, false, || 0);
    for row in 0..10 {
        for col in 0..10 {
            let x = col as i64 * grid.cell_width() as i64;
            let y = row as i64 * grid.cell_height() as i64;
            if let Some(cell) = grid.get_cell_mut(x, y, 0) {
                *cell = (row * 10) + col;
            };
        }
    }

    let mut iter = grid.iter_cells_in_rect(0, 0, 100, 100, 0);
    let mut i = 0;
    while let Some(cell) = iter.next() {
        assert_eq!(i, *cell);
        i += 1;
    }
    assert_eq!(i, 100);
}

#[test]
fn iter_y_down() {
    let mut grid = Grid::<usize>::new(100, 100, 10, 10, 1, false, || 0);
    for row in 0..10 {
        for col in 0..10 {
            let x = col as i64 * grid.cell_width() as i64;
            let y = (9 - row) as i64 * grid.cell_height() as i64;
            if let Some(cell) = grid.get_cell_mut(x, y, 0) {
                *cell = (row * 10) + col;
            }
        }
    }

    let mut iter = grid.iter_cells_in_rect(0, 0, 100, 100, 0).y_down();
    let mut i = 0;
    while let Some(cell) = iter.next() {
        assert_eq!(i, *cell);
        i += 1;
    }
    assert_eq!(i, 100);
}

#[test]
fn iter_coords() {
    let grid = Grid::<(usize, usize)>::new(100, 100, 10, 10, 1, false, || (0, 0));
    let mut iter = grid.iter_coords_in_rect(25, 35, 65, 115);
    let mut count = 0;
    while let Some((col, row)) = iter.next() {
        assert!(col > 1 && col < 7);
        assert!(row > 2 && row < 10);
        count += 1;
    }
    assert_eq!(count, 35);

    let grid = Grid::<(usize, usize)>::new(100, 100, 10, 10, 1, false, || (0, 0));
    let mut iter = grid.iter_coords_in_rect(25, 35, 65, 115).y_down();
    let mut count = 0;
    while let Some((col, row)) = iter.next() {
        assert!(col > 1 && col < 7);
        assert!(row > 2 && row < 10);
        count += 1;
    }
    assert_eq!(count, 35);
}

#[test]
fn grid_resize() {
    // Pivot at lower left corner
    let mut grid = Grid::<(usize, usize)>::new(100, 100, 10, 10, 1, false, || (0, 0));
    for col in 0..grid.columns() {
        for row in 0..grid.rows() {
            if let Some(cell) = grid.get_cell_by_indices_mut(col, row, 0) {
                *cell = (col, row);
            };
        }
    }

    grid.resize(1000, 200);
    assert_eq!(grid.width(), 1000);
    assert_eq!(grid.height(), 200);
    assert_eq!(grid.cell_width(), 100);
    assert_eq!(grid.cell_height(), 20);
    assert_eq!(grid.offset_x(), 0);
    assert_eq!(grid.offset_y(), 0);

    let mut iter = grid.iter_coords_in_rect(150, 50, 300, 150);
    let mut count = 0;
    while let Some(coords) = iter.next() {
        let value = grid.get_cell_by_indices(coords.0, coords.1, 0);
        assert_eq!(Some(&coords), value);
        count += 1;
    }
    assert_eq!(count, 18);

    // Centered Pivot
    let mut grid = Grid::<(usize, usize)>::new(100, 100, 10, 10, 1, true, || (0, 0));
    for col in 0..grid.columns() {
        for row in 0..grid.rows() {
            if let Some(cell) = grid.get_cell_by_indices_mut(col, row, 0) {
                *cell = (col, row);
            };
        }
    }

    grid.resize(1000, 200);
    assert_eq!(grid.width(), 1000);
    assert_eq!(grid.height(), 200);
    assert_eq!(grid.cell_width(), 100);
    assert_eq!(grid.cell_height(), 20);
    assert_eq!(grid.offset_x(), 500);
    assert_eq!(grid.offset_y(), 100);

    let mut iter = grid.iter_coords_in_rect(150, 50, 300, 150);
    let mut count = 0;
    while let Some(coords) = iter.next() {
        let value = grid.get_cell_by_indices(coords.0, coords.1, 0);
        assert_eq!(Some(&coords), value);
        count += 1;
    }
    assert_eq!(count, 9);
}

#[test]
fn outside_area() {
    let mut grid = Grid::<(usize, usize)>::new(100, 100, 10, 10, 1, false, || (0, 0));
    for col in 0..grid.columns() {
        for row in 0..grid.rows() {
            if let Some(cell) = grid.get_cell_by_indices_mut(col, row, 0) {
                *cell = (col, row);
            };
        }
    }

    let a = grid.get_cell(-10, 20, 0);
    assert_eq!(a, None);

    let b = grid.get_cell(10, 200, 0);
    assert_eq!(b, None);

    let c = grid.get_cell(15, 15, 0);
    assert_eq!(c, Some(&(1, 1)));

    let mut iter = grid.iter_cells_in_rect(-25, -25, 5, 5, 0);
    assert_eq!(iter.next(), Some(&(0, 0))); // Only the left-bottom cell will be included
    assert_eq!(iter.next(), None);

    let mut iter = grid.iter_cells_in_rect(95, 95, 125, 125, 0);
    assert_eq!(iter.next(), Some(&(9, 9))); // Only the right-top cell will be included
    assert_eq!(iter.next(), None);
}
