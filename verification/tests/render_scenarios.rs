use maze::game::{GameState, MoveDirection};
use maze::{Location, Maze};

fn fixture_maze() -> Maze {
    let east_open = vec![vec![true, false], vec![false, false]];
    let south_open = vec![vec![true, true], vec![false, false]];
    Maze::from_topology(2, 2, east_open, south_open).expect("fixture should be valid")
}

fn loc(x: usize, y: usize) -> Location {
    Location { x, y }
}

#[test]
fn solution_overlay_on_fixture_is_exact() {
    let maze = fixture_maze();
    let solution = maze.solve().unwrap();
    let expected = [
        "╔═════╦═════╗\n",
        "║  S─────┐  ║\n",
        "║        │  ║\n",
        "╠     ╬  │  ╣\n",
        "║     ║  F  ║\n",
        "║     ║     ║\n",
        "╚═════╩═════╝\n",
    ]
    .concat();
    assert_eq!(maze.render_with_solution(&solution), expected);
}

#[test]
fn empty_path_draws_the_plain_maze() {
    let maze = fixture_maze();
    assert_eq!(maze.render_with_solution(&vec![]), maze.to_string());
}

#[test]
fn path_cells_outside_the_maze_are_skipped() {
    let maze = fixture_maze();
    let plain = maze.to_string();
    assert_eq!(maze.render_with_solution(&vec![loc(5, 5)]), plain);
}

#[test]
fn turns_and_crossings_use_box_drawing_characters() {
    // All inner walls of a 3x3 maze open.
    let maze = Maze::from_topology(
        3,
        3,
        vec![vec![true, true, false]; 3],
        vec![vec![true, true, true], vec![true, true, true], vec![false, false, false]],
    )
    .unwrap();
    let path = vec![loc(0, 0), loc(0, 1), loc(1, 1), loc(1, 0), loc(2, 0), loc(2, 1), loc(2, 2)];
    let text = maze.render_with_solution(&path);
    let lines: Vec<Vec<char>> = text.lines().map(|l| l.chars().collect()).collect();
    assert_eq!(lines[1][3], 'S');
    assert_eq!(lines[4][3], '└');
    assert_eq!(lines[4][9], '┘');
    assert_eq!(lines[1][9], '┌');
    assert_eq!(lines[1][15], '┐');
    assert_eq!(lines[4][15], '│');
    assert_eq!(lines[7][15], 'F');
    assert_eq!(lines[8][15], ' ');
    assert_eq!(text.matches('S').count(), 1);
    assert_eq!(text.matches('F').count(), 1);
}

#[test]
fn isolated_path_cell_is_a_dot() {
    let maze = fixture_maze();
    let text = maze.render_with_solution(&vec![loc(0, 1)]);
    let lines: Vec<Vec<char>> = text.lines().map(|l| l.chars().collect()).collect();
    assert_eq!(lines[4][3], '•');
}

#[test]
fn game_screen_on_fixture_is_exact() {
    let maze = fixture_maze();
    let mut state = GameState::new();
    let _ = state.apply_move(&maze, MoveDirection::Right, 0);
    let expected = [
        "╔═════╦═════╗\n",
        "║  S──────  ║\n",
        "║        @  ║\n",
        "╠     ╬     ╣\n",
        "║     ║  F  ║\n",
        "║     ║     ║\n",
        "╚═════╩═════╝\n",
    ]
    .concat();
    assert_eq!(state.render(&maze, 0), expected);
    assert_eq!(
        maze.render_game(&vec![loc(0, 0), loc(1, 0)], loc(1, 0), true),
        expected + "Blocked by wall. Try a different direction.\n"
    );
}

#[test]
fn game_screen_outside_player_draws_no_marker() {
    let maze = fixture_maze();
    let text = maze.render_game(&vec![loc(0, 0)], loc(7, 7), false);
    assert_eq!(text.matches('@').count(), 0);
    assert_eq!(text.matches('S').count(), 1);
    assert_eq!(text.matches('F').count(), 1);
}

#[test]
fn drawable_sizes_follow_the_line_limits() {
    assert!(Maze::drawable(2, 2));
    assert!(Maze::drawable((usize::MAX - 1) / 6, (usize::MAX - 2) / 3));
    assert!(!Maze::drawable((usize::MAX - 1) / 6 + 1, 2));
    assert!(!Maze::drawable(2, (usize::MAX - 2) / 3 + 1));
    assert!(!Maze::drawable(usize::MAX, usize::MAX));
}

#[test]
fn overlay_keeps_the_shape_of_the_drawing() {
    let maze = Maze::new(5, 4);
    let plain = maze.to_string();
    let path = vec![loc(0, 0), loc(4, 3), loc(2, 1)];
    let drawn = maze.render_with_solution(&path);
    let plain_lines: Vec<usize> = plain.lines().map(|l| l.chars().count()).collect();
    let drawn_lines: Vec<usize> = drawn.lines().map(|l| l.chars().count()).collect();
    assert_eq!(plain_lines, drawn_lines);
    assert_eq!(plain_lines.len(), 1 + 3 * 4);
    assert!(plain_lines.iter().all(|&n| n == 1 + 6 * 5));
    assert!(drawn.ends_with('\n'));
}
