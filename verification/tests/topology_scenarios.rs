use maze::{FromTopologyError, Location, Maze};

fn fixture_maze() -> Maze {
    let east_open = vec![vec![true, false], vec![false, false]];
    let south_open = vec![vec![true, true], vec![false, false]];
    Maze::from_topology(2, 2, east_open, south_open).expect("fixture should be valid")
}

fn loc(x: usize, y: usize) -> Location {
    Location { x, y }
}

#[test]
fn fixture_moves_follow_open_walls() {
    let maze = fixture_maze();
    assert!(maze.can_move_between(loc(0, 0), loc(1, 0)));
    assert!(maze.can_move_between(loc(1, 0), loc(0, 0)));
    assert!(maze.can_move_between(loc(0, 0), loc(0, 1)));
    assert!(maze.can_move_between(loc(1, 0), loc(1, 1)));
    assert!(maze.can_move_between(loc(1, 1), loc(1, 0)));
    assert!(!maze.can_move_between(loc(0, 1), loc(1, 1)));
    assert!(!maze.can_move_between(loc(1, 1), loc(0, 1)));
    assert!(!maze.can_move_between(loc(0, 0), loc(1, 1)));
    assert!(!maze.can_move_between(loc(1, 0), loc(2, 0)));
    assert!(!maze.can_move_between(loc(0, 1), loc(0, 2)));
}

#[test]
fn from_topology_reports_each_problem() {
    let ok_east = || vec![vec![true, false], vec![false, false]];
    let ok_south = || vec![vec![true, true], vec![false, false]];

    assert_eq!(
        Maze::from_topology(2, 1, ok_east(), ok_south()).unwrap_err(),
        FromTopologyError::InvalidDimensions
    );
    assert_eq!(
        Maze::from_topology(2, 2, vec![vec![true, false]], ok_south()).unwrap_err(),
        FromTopologyError::EastOpenHeightMismatch
    );
    assert_eq!(
        Maze::from_topology(2, 2, ok_east(), vec![vec![true, true]]).unwrap_err(),
        FromTopologyError::SouthOpenHeightMismatch
    );
    assert_eq!(
        Maze::from_topology(2, 2, vec![vec![true, false], vec![false]], ok_south()).unwrap_err(),
        FromTopologyError::EastOpenRowWidthMismatch { row: 1, expected: 2 }
    );
    assert_eq!(
        Maze::from_topology(2, 2, ok_east(), vec![vec![true, true, true], vec![false, false]])
            .unwrap_err(),
        FromTopologyError::SouthOpenRowWidthMismatch { row: 0, expected: 2 }
    );
    assert_eq!(
        Maze::from_topology(2, 2, vec![vec![true, false], vec![false, true]], ok_south())
            .unwrap_err(),
        FromTopologyError::EastOpenRightBoundaryOpen { row: 1 }
    );
    assert_eq!(
        Maze::from_topology(2, 2, ok_east(), vec![vec![true, true], vec![false, true]])
            .unwrap_err(),
        FromTopologyError::SouthOpenBottomBoundaryOpen { column: 1 }
    );
    assert_eq!(
        Maze::from_topology(2, 2, ok_east(), vec![vec![true, false], vec![false, false]])
            .unwrap_err(),
        FromTopologyError::NotFullyConnected
    );
}

#[test]
fn from_topology_reports_the_first_problem_found() {
    // Both tables have the wrong number of rows: the east table is checked first.
    assert_eq!(
        Maze::from_topology(2, 2, vec![], vec![]).unwrap_err(),
        FromTopologyError::EastOpenHeightMismatch
    );
    // Rows 1 and 2 of the east table are too short: row 1 is reported.
    assert_eq!(
        Maze::from_topology(
            2,
            3,
            vec![vec![false, false], vec![false], vec![]],
            vec![vec![false, false]; 3]
        )
        .unwrap_err(),
        FromTopologyError::EastOpenRowWidthMismatch { row: 1, expected: 2 }
    );
    // An open right boundary is reported before an open bottom boundary.
    assert_eq!(
        Maze::from_topology(
            2,
            2,
            vec![vec![true, true], vec![false, false]],
            vec![vec![true, true], vec![true, true]]
        )
        .unwrap_err(),
        FromTopologyError::EastOpenRightBoundaryOpen { row: 0 }
    );
}

#[test]
fn error_messages_name_rows_and_columns_in_decimal() {
    assert_eq!(
        FromTopologyError::EastOpenRowWidthMismatch { row: 12, expected: 305 }.to_string(),
        "east_open row 12 must have length 305"
    );
    assert_eq!(
        FromTopologyError::SouthOpenRowWidthMismatch { row: 0, expected: 10 }.to_string(),
        "south_open row 0 must have length 10"
    );
    assert_eq!(
        FromTopologyError::EastOpenRightBoundaryOpen { row: 9 }.to_string(),
        "east_open right boundary must be closed at row 9"
    );
    assert_eq!(
        FromTopologyError::SouthOpenBottomBoundaryOpen { column: 100 }.to_string(),
        "south_open bottom boundary must be closed at column 100"
    );
    assert_eq!(
        FromTopologyError::SouthOpenHeightMismatch.to_string(),
        "south_open must have one row per maze row"
    );
    assert_eq!(
        FromTopologyError::NotFullyConnected.to_string(),
        "maze must be fully connected from start"
    );
}

#[test]
fn solve_finds_the_fixture_route() {
    let maze = fixture_maze();
    let path = maze.solve().expect("the fixture has a route");
    assert_eq!(path, vec![loc(0, 0), loc(1, 0), loc(1, 1)]);
}

#[test]
fn solve_prefers_north_east_south_west_depth_first() {
    // A 3x2 maze with every inner wall open: east first, then south.
    let maze = Maze::from_topology(
        3,
        2,
        vec![vec![true, true, false], vec![true, true, false]],
        vec![vec![true, true, true], vec![false, false, false]],
    )
    .unwrap();
    let path = maze.solve().unwrap();
    assert_eq!(path, vec![loc(0, 0), loc(1, 0), loc(2, 0), loc(2, 1)]);
}

#[test]
fn one_cell_maze_is_its_own_solution() {
    let maze = Maze::new(1, 1);
    assert_eq!(maze.size(), (1, 1));
    assert_eq!(maze.solve(), Some(vec![loc(0, 0)]));
    assert_eq!(maze.to_string(), "╔═════╗\n║  S  ║\n║  S  ║\n╚═════╝\n");
}

#[test]
fn generated_single_row_and_column_mazes_are_corridors() {
    // With one row, every cell must be opened to the next one to connect it.
    let row = Maze::new(5, 1);
    for x in 0..4 {
        assert!(row.can_move_between(loc(x, 0), loc(x + 1, 0)));
    }
    let column = Maze::new(1, 4);
    for y in 0..3 {
        assert!(column.can_move_between(loc(0, y), loc(0, y + 1)));
    }
    assert_eq!(column.solve().unwrap().len(), 4);
}

#[test]
fn generated_mazes_are_solvable_with_simple_routes() {
    for (width, height) in [(2, 3), (9, 2), (10, 10)] {
        let maze = Maze::new(width, height);
        let path = maze.solve().expect("a generated maze is fully connected");
        assert_eq!(path[0], loc(0, 0));
        assert_eq!(*path.last().unwrap(), loc(width - 1, height - 1));
        for pair in path.windows(2) {
            assert!(maze.can_move_between(pair[0], pair[1]));
            assert!(maze.can_move_between(pair[1], pair[0]));
        }
    }
}

#[test]
fn from_topology_refuses_huge_dimensions_by_shape() {
    assert_eq!(
        Maze::from_topology(usize::MAX, 2, vec![], vec![]).unwrap_err(),
        FromTopologyError::EastOpenHeightMismatch
    );
    assert_eq!(
        Maze::from_topology(2, usize::MAX, vec![], vec![]).unwrap_err(),
        FromTopologyError::EastOpenHeightMismatch
    );
    assert_eq!(
        Maze::from_topology(usize::MAX, 2, vec![vec![false], vec![false]], vec![vec![], vec![]])
            .unwrap_err(),
        FromTopologyError::EastOpenRowWidthMismatch { row: 0, expected: usize::MAX }
    );
}
