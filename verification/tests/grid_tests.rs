use seam_carving::energy::PixelEnergyPoint;
use seam_carving::grid::Grid;

fn cell(x: usize, y: usize) -> PixelEnergyPoint {
    PixelEnergyPoint { pixel: [x as u8, y as u8, 0, 0], energy: (10 * x + y) as u64, path_cost: 7 }
}

fn blank() -> PixelEnergyPoint {
    PixelEnergyPoint { pixel: [0, 0, 0, 0], energy: 0, path_cost: 0 }
}

fn numbered(width: usize, height: usize) -> Grid {
    let mut grid = Grid::new(width, height, blank());
    for y in 0..height {
        for x in 0..width {
            *grid.get_mut(x, y) = cell(x, y);
        }
    }
    grid
}

fn row_of(grid: &Grid, y: usize) -> Vec<(usize, usize)> {
    grid.get_row(y).iter().map(|c| (c.pixel[0] as usize, c.pixel[1] as usize)).collect()
}

#[test]
fn new_grid_is_filled() {
    let grid = Grid::new(3, 2, cell(9, 9));
    assert_eq!(grid.width(), 3);
    assert_eq!(grid.height(), 2);
    for y in 0..2 {
        for x in 0..3 {
            assert_eq!(*grid.get(x, y), cell(9, 9));
        }
    }
}

#[test]
fn get_mut_changes_one_cell() {
    let mut grid = numbered(3, 2);
    grid.get_mut(1, 1).energy = 99;
    for y in 0..2 {
        for x in 0..3 {
            let expected = if (x, y) == (1, 1) {
                PixelEnergyPoint { energy: 99, ..cell(1, 1) }
            } else {
                cell(x, y)
            };
            assert_eq!(*grid.get(x, y), expected);
        }
    }
}

#[test]
fn adjacent_cells_in_the_middle() {
    let grid = numbered(3, 3);
    let (left, right, up, down) = grid.get_adjacent(1, 1);
    assert_eq!((*left, *right, *up, *down), (cell(0, 1), cell(2, 1), cell(1, 0), cell(1, 2)));
}

#[test]
fn adjacent_cells_at_the_borders_repeat_the_cell() {
    let grid = numbered(3, 3);
    let (left, right, up, down) = grid.get_adjacent(0, 0);
    assert_eq!((*left, *right, *up, *down), (cell(0, 0), cell(1, 0), cell(0, 0), cell(0, 1)));
    let (left, right, up, down) = grid.get_adjacent(2, 2);
    assert_eq!((*left, *right, *up, *down), (cell(1, 2), cell(2, 2), cell(2, 1), cell(2, 2)));
    let single = numbered(1, 1);
    let (left, right, up, down) = single.get_adjacent(0, 0);
    assert_eq!((*left, *right, *up, *down), (cell(0, 0), cell(0, 0), cell(0, 0), cell(0, 0)));
}

#[test]
fn parents_are_the_cells_above() {
    let grid = numbered(4, 3);
    assert_eq!(grid.get_parents(0, 0), vec![]);
    assert_eq!(grid.get_parents(2, 0), vec![]);
    assert_eq!(
        grid.get_parents(2, 2),
        vec![(1, 1, cell(1, 1)), (2, 1, cell(2, 1)), (3, 1, cell(3, 1))]
    );
    assert_eq!(grid.get_parents(0, 1), vec![(0, 0, cell(0, 0)), (1, 0, cell(1, 0))]);
    assert_eq!(grid.get_parents(3, 1), vec![(2, 0, cell(2, 0)), (3, 0, cell(3, 0))]);
    let narrow = numbered(1, 2);
    assert_eq!(narrow.get_parents(0, 1), vec![(0, 0, cell(0, 0))]);
}

#[test]
fn row_is_listed_from_left_to_right() {
    let grid = numbered(3, 2);
    assert_eq!(grid.get_row(1), vec![cell(0, 1), cell(1, 1), cell(2, 1)]);
}

#[test]
fn coord_iter_goes_row_by_row() {
    let grid = numbered(2, 3);
    assert_eq!(
        grid.coord_iter(),
        vec![
            (0, 0, cell(0, 0)), (1, 0, cell(1, 0)), (0, 1, cell(0, 1)), (1, 1, cell(1, 1)),
            (0, 2, cell(0, 2)), (1, 2, cell(1, 2)),
        ]
    );
    assert_eq!(Grid::new(0, 3, blank()).coord_iter(), vec![]);
}

#[test]
fn rotate_exchanges_rows_and_columns() {
    let mut grid = numbered(3, 2);
    grid.rotate();
    assert_eq!((grid.width(), grid.height()), (2, 3));
    for y in 0..3 {
        for x in 0..2 {
            assert_eq!(*grid.get(x, y), cell(y, x));
        }
    }
    grid.rotate();
    assert_eq!((grid.width(), grid.height()), (3, 2));
    for y in 0..2 {
        for x in 0..3 {
            assert_eq!(*grid.get(x, y), cell(x, y));
        }
    }
}

#[test]
fn add_last_column_appends_blank_cells() {
    let mut grid = numbered(2, 2);
    grid.add_last_column();
    assert_eq!((grid.width(), grid.height()), (3, 2));
    assert_eq!(grid.get_row(0), vec![cell(0, 0), cell(1, 0), blank()]);
    assert_eq!(grid.get_row(1), vec![cell(0, 1), cell(1, 1), blank()]);
}

#[test]
fn remove_last_column_drops_the_rightmost_cells() {
    let mut grid = numbered(3, 2);
    grid.remove_last_column();
    assert_eq!((grid.width(), grid.height()), (2, 2));
    assert_eq!(grid.get_row(0), vec![cell(0, 0), cell(1, 0)]);
    assert_eq!(grid.get_row(1), vec![cell(0, 1), cell(1, 1)]);
    grid.remove_last_column();
    grid.remove_last_column();
    assert_eq!((grid.width(), grid.height()), (0, 2));
}

#[test]
fn shift_left_overwrites_the_point() {
    let mut grid = numbered(4, 2);
    grid.shift_row_left_from_point(1, 1);
    assert_eq!(row_of(&grid, 0), vec![(0, 0), (1, 0), (2, 0), (3, 0)]);
    assert_eq!(row_of(&grid, 1), vec![(0, 1), (2, 1), (3, 1), (3, 1)]);
    grid.shift_row_left_from_point(3, 0);
    assert_eq!(row_of(&grid, 0), vec![(0, 0), (1, 0), (2, 0), (3, 0)]);
    grid.shift_row_left_from_point(0, 0);
    assert_eq!(row_of(&grid, 0), vec![(1, 0), (2, 0), (3, 0), (3, 0)]);
}

#[test]
fn shift_right_repeats_the_point() {
    let mut grid = numbered(4, 2);
    grid.shift_row_right_from_point(1, 0);
    assert_eq!(row_of(&grid, 0), vec![(0, 0), (1, 0), (1, 0), (2, 0)]);
    assert_eq!(row_of(&grid, 1), vec![(0, 1), (1, 1), (2, 1), (3, 1)]);
    grid.shift_row_right_from_point(3, 1);
    assert_eq!(row_of(&grid, 1), vec![(0, 1), (1, 1), (2, 1), (3, 1)]);
    grid.shift_row_right_from_point(0, 1);
    assert_eq!(row_of(&grid, 1), vec![(0, 1), (0, 1), (1, 1), (2, 1)]);
}

#[test]
fn a_cloned_grid_is_changed_on_its_own() {
    let grid = numbered(2, 2);
    let mut copy = grid.clone();
    copy.get_mut(0, 0).energy = 1234;
    copy.remove_last_column();
    assert_eq!((grid.width(), grid.height()), (2, 2));
    assert_eq!(*grid.get(0, 0), cell(0, 0));
    assert_eq!(copy.get(0, 0).energy, 1234);
}
