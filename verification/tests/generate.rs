use mazes::{Algorithm, Cell, Maze, RandomSource};

fn passages(maze: &Maze) -> usize {
    let mut count = 0;
    for y in 0..maze.rows() {
        for x in 0..maze.columns() {
            let cell = maze.cell_at(x, y);
            if cell.east {
                count += 1;
            }
            if cell.north {
                count += 1;
            }
        }
    }
    count
}

fn reachable_from_origin(maze: &Maze) -> usize {
    let rows = maze.rows();
    let columns = maze.columns();
    let mut seen = vec![false; rows * columns];
    let mut stack = vec![(0usize, 0usize)];
    seen[0] = true;
    let mut count = 0;
    while let Some((x, y)) = stack.pop() {
        count += 1;
        let cell = maze.cell_at(x, y);
        let mut next = Vec::new();
        if cell.east {
            next.push((x + 1, y));
        }
        if cell.west {
            next.push((x - 1, y));
        }
        if cell.north {
            next.push((x, y - 1));
        }
        if cell.south {
            next.push((x, y + 1));
        }
        for (a, b) in next {
            if !seen[b * columns + a] {
                seen[b * columns + a] = true;
                stack.push((a, b));
            }
        }
    }
    count
}

fn symmetric(maze: &Maze) -> bool {
    let rows = maze.rows();
    let columns = maze.columns();
    for y in 0..rows {
        for x in 0..columns {
            let cell = maze.cell_at(x, y);
            let east = x + 1 < columns && maze.cell_at(x + 1, y).west;
            let west = x > 0 && maze.cell_at(x - 1, y).east;
            let north = y > 0 && maze.cell_at(x, y - 1).south;
            let south = y + 1 < rows && maze.cell_at(x, y + 1).north;
            if cell.east != east || cell.west != west || cell.north != north || cell.south != south
            {
                return false;
            }
        }
    }
    true
}

fn generated(rows: usize, columns: usize, algorithm: Algorithm, source: &mut RandomSource) -> Maze {
    let mut maze = Maze::new(rows, columns);
    maze.generate(algorithm, source);
    maze
}

#[test]
fn generated_mazes_are_spanning_trees() {
    let sizes = [(1, 1), (1, 2), (2, 1), (1, 9), (9, 1), (2, 2), (3, 3), (5, 8), (12, 7), (20, 20)];
    for algorithm in [Algorithm::Binary, Algorithm::Sidewinder] {
        for (rows, columns) in sizes {
            for _ in 0..5 {
                let mut source = RandomSource::thread();
                let maze = generated(rows, columns, algorithm, &mut source);
                assert!(symmetric(&maze));
                assert_eq!(passages(&maze), rows * columns - 1);
                assert_eq!(reachable_from_origin(&maze), rows * columns);
            }
        }
    }
}

#[test]
fn scripted_mazes_are_spanning_trees() {
    let scripts: [Vec<usize>; 5] =
        [vec![0], vec![1], vec![0, 1], vec![1, 1, 0, 2, 5, 0, 3], vec![]];
    for algorithm in [Algorithm::Binary, Algorithm::Sidewinder] {
        for script in scripts.iter() {
            let mut source = RandomSource::scripted(script.clone());
            let maze = generated(6, 7, algorithm, &mut source);
            assert!(symmetric(&maze));
            assert_eq!(passages(&maze), 41);
            assert_eq!(reachable_from_origin(&maze), 42);
        }
    }
}

#[test]
fn scripted_generation_repeats() {
    for algorithm in [Algorithm::Binary, Algorithm::Sidewinder] {
        let script = vec![3, 1, 4, 1, 5, 9, 2, 6, 5, 3, 5];
        let mut first_source = RandomSource::scripted(script.clone());
        let mut second_source = RandomSource::scripted(script);
        let first = generated(8, 8, algorithm, &mut first_source);
        let second = generated(8, 8, algorithm, &mut second_source);
        assert_eq!(first.to_string(), second.to_string());
    }
}

#[test]
fn binary_tree_top_row_and_last_column_are_corridors() {
    for _ in 0..10 {
        let mut source = RandomSource::thread();
        let maze = generated(7, 5, Algorithm::Binary, &mut source);
        for x in 0..4 {
            assert!(maze.cell_at(x, 0).east);
        }
        assert!(!maze.cell_at(4, 0).east);
        for y in 1..7 {
            assert!(maze.cell_at(4, y).north);
        }
        for y in 1..7 {
            for x in 0..5 {
                let cell = maze.cell_at(x, y);
                assert!(cell.north != cell.east);
            }
        }
    }
}

#[test]
fn binary_tree_follows_the_coin() {
    let mut source = RandomSource::scripted(vec![0, 1, 1]);
    let maze = generated(3, 4, Algorithm::Binary, &mut source);
    let open = |maze: &Maze, x: usize, y: usize| {
        let cell = maze.cell_at(x, y);
        (cell.north, cell.east)
    };
    assert_eq!(open(&maze, 0, 2), (true, false));
    assert_eq!(open(&maze, 1, 2), (false, true));
    assert_eq!(open(&maze, 2, 2), (false, true));
    assert_eq!(open(&maze, 3, 2), (true, false));
    assert_eq!(open(&maze, 0, 1), (true, false));
    assert_eq!(open(&maze, 1, 1), (false, true));
    assert_eq!(open(&maze, 2, 1), (false, true));
    assert_eq!(open(&maze, 3, 1), (true, false));
    assert_eq!(open(&maze, 0, 0), (false, true));
    assert_eq!(open(&maze, 1, 0), (false, true));
    assert_eq!(open(&maze, 2, 0), (false, true));
    assert_eq!(open(&maze, 3, 0), (false, false));
}

#[test]
fn binary_tree_on_a_single_row_is_one_corridor() {
    for columns in 1..9usize {
        let mut source = RandomSource::thread();
        let maze = generated(1, columns, Algorithm::Binary, &mut source);
        for x in 0..columns {
            let cell = maze.cell_at(x, 0);
            assert_eq!(
                cell,
                Cell { north: false, south: false, east: x + 1 < columns, west: x > 0 }
            );
        }
    }
}

#[test]
fn sidewinder_runs_have_one_exit_each() {
    for _ in 0..20 {
        let mut source = RandomSource::thread();
        let maze = generated(6, 9, Algorithm::Sidewinder, &mut source);
        for x in 0..8 {
            assert!(maze.cell_at(x, 0).east);
        }
        for y in 1..6 {
            let mut exits = 0;
            for x in 0..9 {
                let cell = maze.cell_at(x, y);
                if cell.north {
                    exits += 1;
                }
                if !cell.east {
                    assert_eq!(exits, 1);
                    exits = 0;
                }
            }
            assert!(!maze.cell_at(8, y).east);
        }
    }
}

#[test]
fn sidewinder_picks_the_exit_from_the_run() {
    let mut source = RandomSource::scripted(vec![1, 1, 0, 2]);
    let maze = generated(2, 5, Algorithm::Sidewinder, &mut source);
    let norths: Vec<bool> = (0..5).map(|x| maze.cell_at(x, 1).north).collect();
    let easts: Vec<bool> = (0..5).map(|x| maze.cell_at(x, 1).east).collect();
    assert_eq!(easts, vec![true, true, false, true, false]);
    assert_eq!(norths, vec![true, false, false, true, false]);
}

#[test]
fn run_is_listed_from_the_cell_westward() {
    let mut maze = Maze::new(2, 5);
    maze.open_cell_east(1, 1);
    maze.open_cell_east(2, 1);
    assert_eq!(maze.select_sidewinder_run(3, 1), vec![(3, 1), (2, 1), (1, 1)]);
    assert_eq!(maze.select_sidewinder_run(2, 1), vec![(2, 1), (1, 1)]);
    assert_eq!(maze.select_sidewinder_run(1, 1), vec![(1, 1)]);
    assert_eq!(maze.select_sidewinder_run(0, 1), vec![(0, 1)]);
    assert_eq!(maze.select_sidewinder_run(4, 1), vec![(4, 1)]);
    assert_eq!(maze.select_sidewinder_run(3, 0), vec![(3, 0)]);
}

#[test]
fn closing_a_run_opens_the_picked_cell() {
    let mut maze = Maze::new(2, 5);
    maze.open_cell_east(1, 1);
    maze.open_cell_east(2, 1);
    let mut source = RandomSource::scripted(vec![2]);
    let column = maze.open_sidewinder_north(3, 1, &mut source);
    assert_eq!(column, 1);
    for x in 0..5 {
        assert_eq!(maze.cell_at(x, 1).north, x == 1);
        assert_eq!(maze.cell_at(x, 0).south, x == 1);
    }
}

#[test]
fn populate_runs_the_chosen_algorithm() {
    let mut chosen = Maze::new(4, 4);
    chosen.set_algorithm(Algorithm::Sidewinder);
    let mut source = RandomSource::scripted(vec![1, 0, 2]);
    chosen.populate(&mut source);
    let mut again = RandomSource::scripted(vec![1, 0, 2]);
    let direct = generated(4, 4, Algorithm::Sidewinder, &mut again);
    assert_eq!(chosen.to_string(), direct.to_string());

    let mut plain = Maze::new(4, 4);
    let mut third = RandomSource::scripted(vec![1, 0, 2]);
    plain.populate(&mut third);
    let mut fourth = RandomSource::scripted(vec![1, 0, 2]);
    let binary = generated(4, 4, Algorithm::Binary, &mut fourth);
    assert_eq!(plain.to_string(), binary.to_string());
}

#[test]
fn generating_again_only_adds_passages() {
    let mut maze = Maze::new(5, 5);
    let mut source = RandomSource::thread();
    maze.generate(Algorithm::Binary, &mut source);
    let mut before = Vec::new();
    for y in 0..5 {
        for x in 0..5 {
            before.push(maze.cell_at(x, y));
        }
    }
    maze.generate(Algorithm::Sidewinder, &mut source);
    assert!(symmetric(&maze));
    for y in 0..5 {
        for x in 0..5 {
            let old = before[y * 5 + x];
            let new = maze.cell_at(x, y);
            assert!(!old.north || new.north);
            assert!(!old.south || new.south);
            assert!(!old.east || new.east);
            assert!(!old.west || new.west);
        }
    }
}

#[test]
fn generating_on_a_carved_maze_keeps_it_connected() {
    for algorithm in [Algorithm::Binary, Algorithm::Sidewinder] {
        for _ in 0..10 {
            let mut maze = Maze::new(6, 6);
            maze.open_cell_east(2, 3);
            maze.open_cell_east(3, 3);
            maze.open_cell_north(1, 5);
            maze.open_cell_north(4, 2);
            let mut source = RandomSource::thread();
            maze.generate(algorithm, &mut source);
            assert!(symmetric(&maze));
            assert_eq!(reachable_from_origin(&maze), 36);
            assert!(maze.cell_at(2, 3).east && maze.cell_at(3, 3).east);
            assert!(maze.cell_at(1, 5).north && maze.cell_at(4, 2).north);
        }
    }
}

#[test]
fn sidewinder_on_a_carved_row_picks_from_the_longer_run() {
    let mut maze = Maze::new(2, 4);
    maze.open_cell_east(0, 1);
    maze.open_cell_east(1, 1);
    let mut source = RandomSource::scripted(vec![0, 2]);
    maze.generate(Algorithm::Sidewinder, &mut source);
    let norths: Vec<bool> = (0..4).map(|x| maze.cell_at(x, 1).north).collect();
    assert_eq!(norths, vec![true, true, false, true]);
}
