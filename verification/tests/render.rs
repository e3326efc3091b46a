use mazes::render::{decimal_text, label_text};
use mazes::{Algorithm, Maze, MazeView, RandomSource};

fn lines(parts: &[&str]) -> String {
    let mut text = String::new();
    for part in parts {
        text.push_str(part);
        text.push('\n');
    }
    text
}

#[test]
fn decimal_numerals() {
    assert_eq!(decimal_text(0), "0");
    assert_eq!(decimal_text(7), "7");
    assert_eq!(decimal_text(10), "10");
    assert_eq!(decimal_text(409), "409");
    assert_eq!(decimal_text(1234567890), "1234567890");
    assert_eq!(decimal_text(usize::MAX), format!("{}", usize::MAX));
}

#[test]
fn labels_are_right_justified_in_three_places() {
    assert_eq!(label_text(1), "  1");
    assert_eq!(label_text(9), "  9");
    assert_eq!(label_text(10), " 10");
    assert_eq!(label_text(99), " 99");
    assert_eq!(label_text(100), "100");
    assert_eq!(label_text(999), "999");
    assert_eq!(label_text(1000), "1000");
    for n in 0..1200usize {
        assert_eq!(label_text(n), format!("{:>3}", n));
    }
}

#[test]
fn border_line() {
    assert_eq!(Maze::new(1, 1).draw_horizontal(), "    +---+");
    assert_eq!(Maze::new(1, 2).draw_horizontal(), "    +---+---+");
    assert_eq!(Maze::new(7, 4).draw_horizontal(), "    +---+---+---+---+");
}

#[test]
fn blank_maze_renders_every_wall() {
    let maze = Maze::new(2, 3);
    let expected = lines(&[
        "       1   2   3 ",
        "    +---+---+---+",
        "  1 |   |   |   |",
        "    +---+---+---+",
        "  2 |   |   |   |",
        "    +---+---+---+",
    ]);
    assert_eq!(maze.to_string(), expected);
}

#[test]
fn open_walls_render_as_gaps() {
    let mut maze = Maze::new(2, 3);
    maze.open_cell_east(0, 0);
    maze.open_cell_north(2, 1);
    maze.open_cell_east(1, 1);
    let expected = lines(&[
        "       1   2   3 ",
        "    +---+---+---+",
        "  1 |       |   |",
        "    +---+---+   +",
        "  2 |   |       |",
        "    +---+---+---+",
    ]);
    assert_eq!(maze.to_string(), expected);
}

#[test]
fn one_by_one_maze_renders_a_single_closed_box() {
    let expected = lines(&["       1 ", "    +---+", "  1 |   |", "    +---+"]);
    for algorithm in [Algorithm::Binary, Algorithm::Sidewinder] {
        let mut maze = Maze::new(1, 1);
        let mut source = RandomSource::thread();
        maze.generate(algorithm, &mut source);
        assert_eq!(maze.to_string(), expected);
        let cell = maze.cell_at(0, 0);
        assert!(!cell.north && !cell.south && !cell.east && !cell.west);
    }
}

#[test]
fn binary_tree_with_all_heads_renders_exactly() {
    let expected = lines(&[
        "       1   2   3 ",
        "    +---+---+---+",
        "  1 |           |",
        "    +   +   +   +",
        "  2 |   |   |   |",
        "    +   +   +   +",
        "  3 |   |   |   |",
        "    +---+---+---+",
    ]);
    for _ in 0..3 {
        let mut maze = Maze::new(3, 3);
        let mut source = RandomSource::scripted(vec![0]);
        maze.generate(Algorithm::Binary, &mut source);
        assert_eq!(maze.to_string(), expected);
    }
}

#[test]
fn binary_tree_with_all_tails_renders_exactly() {
    let expected = lines(&[
        "       1   2   3 ",
        "    +---+---+---+",
        "  1 |           |",
        "    +---+---+   +",
        "  2 |           |",
        "    +---+---+   +",
        "  3 |           |",
        "    +---+---+---+",
    ]);
    let mut maze = Maze::new(3, 3);
    let mut source = RandomSource::scripted(vec![1]);
    maze.generate(Algorithm::Binary, &mut source);
    assert_eq!(maze.to_string(), expected);
}

#[test]
fn sidewinder_with_all_zeros_renders_exactly() {
    let expected = lines(&[
        "       1   2   3 ",
        "    +---+---+---+",
        "  1 |           |",
        "    +   +   +   +",
        "  2 |   |   |   |",
        "    +   +   +   +",
        "  3 |   |   |   |",
        "    +---+---+---+",
    ]);
    let mut maze = Maze::new(3, 3);
    let mut source = RandomSource::scripted(vec![0]);
    maze.generate(Algorithm::Sidewinder, &mut source);
    assert_eq!(maze.to_string(), expected);
}

#[test]
fn sidewinder_with_all_ones_renders_exactly() {
    let expected = lines(&[
        "       1   2   3 ",
        "    +---+---+---+",
        "  1 |           |",
        "    +---+   +---+",
        "  2 |           |",
        "    +---+   +---+",
        "  3 |           |",
        "    +---+---+---+",
    ]);
    let mut maze = Maze::new(3, 3);
    let mut source = RandomSource::scripted(vec![1]);
    maze.generate(Algorithm::Sidewinder, &mut source);
    assert_eq!(maze.to_string(), expected);
}

#[test]
fn rendering_twice_gives_the_same_text() {
    for algorithm in [Algorithm::Binary, Algorithm::Sidewinder] {
        let mut maze = Maze::new(6, 9);
        let mut source = RandomSource::thread();
        maze.generate(algorithm, &mut source);
        let first = maze.to_string();
        let second = maze.to_string();
        assert_eq!(first, second);
    }
}

#[test]
fn wide_and_tall_mazes_keep_their_labels() {
    let maze = Maze::new(12, 11);
    let text = maze.to_string();
    let all: Vec<&str> = text.lines().collect();
    assert_eq!(all.len(), 2 + 12 + 11 + 1);
    assert_eq!(all[0], "       1   2   3   4   5   6   7   8   9  10  11 ");
    assert_eq!(all[2], "  1 |   |   |   |   |   |   |   |   |   |   |   |");
    assert_eq!(all[20], " 10 |   |   |   |   |   |   |   |   |   |   |   |");
    assert_eq!(all[24], " 12 |   |   |   |   |   |   |   |   |   |   |   |");
    assert_eq!(all[25], all[1]);
    assert!(text.ends_with("+\n"));
}

#[test]
fn view_starts_with_a_blank_ten_by_ten_maze() {
    let view = MazeView::new();
    assert_eq!(view.text(), Maze::new(10, 10).to_string());
}

#[test]
fn view_fits_the_maze_to_the_screen() {
    let mut view = MazeView::new();
    let mut source = RandomSource::scripted(vec![0]);
    view.layout(16, 8, &mut source);
    let mut maze = Maze::new(3, 3);
    let mut again = RandomSource::scripted(vec![0]);
    maze.generate(Algorithm::Binary, &mut again);
    assert_eq!(view.text(), maze.to_string());
    view.layout(8, 4, &mut source);
    assert_eq!(view.text(), "       1 \n    +---+\n  1 |   |\n    +---+\n");
}

#[test]
fn view_uses_the_chosen_algorithm() {
    let mut view = MazeView::new();
    view.set_algorithm(Algorithm::Sidewinder);
    let mut source = RandomSource::scripted(vec![1]);
    view.layout(19, 9, &mut source);
    let mut maze = Maze::new(3, 3);
    let mut again = RandomSource::scripted(vec![1]);
    maze.generate(Algorithm::Sidewinder, &mut again);
    assert_eq!(view.text(), maze.to_string());
}
