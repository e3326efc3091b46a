use mazes::{Algorithm, Cell, Maze, RandomSource};

fn closed() -> Cell {
    Cell { north: false, south: false, east: false, west: false }
}

fn all_cells(maze: &Maze) -> Vec<Cell> {
    let mut cells = Vec::new();
    for y in 0..maze.rows() {
        for x in 0..maze.columns() {
            cells.push(maze.cell_at(x, y));
        }
    }
    cells
}

fn symmetric(maze: &Maze) -> bool {
    let rows = maze.rows();
    let columns = maze.columns();
    for y in 0..rows {
        for x in 0..columns {
            let cell = maze.cell_at(x, y);
            let east = x + 1 < columns && maze.cell_at(x + 1, y).west;
            let west = x > 0 && maze.cell_at(x - 1, y).east;
            let north = y > 0 && maze.cell_at(x, y - 1).south;
            let south = y + 1 < rows && maze.cell_at(x, y + 1).north;
            if cell.east != east || cell.west != west || cell.north != north || cell.south != south
            {
                return false;
            }
        }
    }
    true
}

#[test]
fn new_cell_is_closed() {
    assert_eq!(Cell::new(), closed());
}

#[test]
fn new_maze_is_blank_and_binary() {
    let maze = Maze::new(3, 5);
    assert_eq!(maze.rows(), 3);
    assert_eq!(maze.columns(), 5);
    assert_eq!(maze.algorithm(), Algorithm::Binary);
    assert_eq!(all_cells(&maze), vec![closed(); 15]);
}

#[test]
fn open_east_sets_both_sides_only() {
    let mut maze = Maze::new(3, 4);
    maze.open_cell_east(1, 2);
    for y in 0..3 {
        for x in 0..4 {
            let expected = if (x, y) == (1, 2) {
                Cell { east: true, ..closed() }
            } else if (x, y) == (2, 2) {
                Cell { west: true, ..closed() }
            } else {
                closed()
            };
            assert_eq!(maze.cell_at(x, y), expected);
        }
    }
    assert!(symmetric(&maze));
}

#[test]
fn open_north_sets_both_sides_only() {
    let mut maze = Maze::new(3, 4);
    maze.open_cell_north(3, 1);
    for y in 0..3 {
        for x in 0..4 {
            let expected = if (x, y) == (3, 1) {
                Cell { north: true, ..closed() }
            } else if (x, y) == (3, 0) {
                Cell { south: true, ..closed() }
            } else {
                closed()
            };
            assert_eq!(maze.cell_at(x, y), expected);
        }
    }
    assert!(symmetric(&maze));
}

#[test]
fn symmetry_holds_after_every_carve() {
    let mut maze = Maze::new(4, 4);
    for y in 0..4 {
        for x in 0..4 {
            maze.open_cell_east(x, y);
            assert!(symmetric(&maze));
            maze.open_cell_north(x, y);
            assert!(symmetric(&maze));
        }
    }
}

#[test]
fn open_east_in_last_column_changes_nothing() {
    let mut maze = Maze::new(3, 3);
    maze.open_cell_north(1, 1);
    maze.open_cell_east(0, 2);
    let before = all_cells(&maze);
    for y in 0..3 {
        maze.open_cell_east(2, y);
        assert_eq!(all_cells(&maze), before);
    }
}

#[test]
fn open_north_in_top_row_changes_nothing() {
    let mut maze = Maze::new(3, 3);
    maze.open_cell_north(1, 1);
    maze.open_cell_east(0, 2);
    let before = all_cells(&maze);
    for x in 0..3 {
        maze.open_cell_north(x, 0);
        assert_eq!(all_cells(&maze), before);
    }
}

#[test]
fn carving_twice_is_carving_once() {
    let mut once = Maze::new(2, 2);
    once.open_cell_east(0, 1);
    let mut twice = Maze::new(2, 2);
    twice.open_cell_east(0, 1);
    twice.open_cell_east(0, 1);
    assert_eq!(all_cells(&once), all_cells(&twice));
}

#[test]
fn clear_closes_every_cell_and_keeps_the_rest() {
    let mut maze = Maze::new(4, 6);
    maze.set_algorithm(Algorithm::Sidewinder);
    let mut source = RandomSource::thread();
    maze.populate(&mut source);
    maze.clear();
    assert_eq!(maze.rows(), 4);
    assert_eq!(maze.columns(), 6);
    assert_eq!(maze.algorithm(), Algorithm::Sidewinder);
    assert_eq!(all_cells(&maze), vec![closed(); 24]);
}

#[test]
fn set_size_resizes_and_clears() {
    let mut maze = Maze::new(2, 2);
    maze.open_cell_east(0, 0);
    maze.set_size(5, 3);
    assert_eq!(maze.rows(), 5);
    assert_eq!(maze.columns(), 3);
    assert_eq!(maze.algorithm(), Algorithm::Binary);
    assert_eq!(all_cells(&maze), vec![closed(); 15]);
}

#[test]
fn set_algorithm_selects_and_clears() {
    let mut maze = Maze::new(2, 3);
    maze.open_cell_north(1, 1);
    maze.set_algorithm(Algorithm::Sidewinder);
    assert_eq!(maze.algorithm(), Algorithm::Sidewinder);
    assert_eq!(maze.rows(), 2);
    assert_eq!(maze.columns(), 3);
    assert_eq!(all_cells(&maze), vec![closed(); 6]);
    maze.set_algorithm(Algorithm::Binary);
    assert_eq!(maze.algorithm(), Algorithm::Binary);
}

#[test]
fn cells_are_stored_row_by_row() {
    let mut maze = Maze::new(2, 3);
    maze.open_cell_east(1, 0);
    maze.open_cell_north(0, 1);
    assert_eq!(maze.cell_at(1, 0), Cell { east: true, ..closed() });
    assert_eq!(maze.cell_at(2, 0), Cell { west: true, ..closed() });
    assert_eq!(maze.cell_at(0, 1), Cell { north: true, ..closed() });
    assert_eq!(maze.cell_at(0, 0), Cell { south: true, ..closed() });
    assert_eq!(maze.cell_at(1, 1), closed());
    assert_eq!(maze.cell_at(2, 1), closed());
}
