use maze::game::{game_step, GameAction, GameInput, GameState, InputOutcome, MoveDirection, MoveOutcome};
use maze::{Location, Maze};

fn fixture_maze() -> Maze {
    let east_open = vec![vec![true, false], vec![false, false]];
    let south_open = vec![vec![true, true], vec![false, false]];
    Maze::from_topology(2, 2, east_open, south_open).expect("fixture should be valid")
}

fn loc(x: usize, y: usize) -> Location {
    Location { x, y }
}

#[test]
fn quit_changes_nothing() {
    let maze = fixture_maze();
    let mut state = GameState::new();
    let _ = state.apply_move(&maze, MoveDirection::Up, 100);
    assert_eq!(state.apply_input(&maze, GameInput::Quit, 200), InputOutcome::Quit);
    assert_eq!(state.position(), loc(0, 0));
    assert!(state.is_blocked_error_visible(200));
}

#[test]
fn input_moves_report_their_outcome() {
    let maze = fixture_maze();
    let mut state = GameState::new();
    assert_eq!(
        state.apply_input(&maze, GameInput::Move(MoveDirection::Left), 0),
        InputOutcome::Move(MoveOutcome::Blocked)
    );
    assert_eq!(
        state.apply_input(&maze, GameInput::Move(MoveDirection::Down), 0),
        InputOutcome::Move(MoveOutcome::Moved)
    );
    assert_eq!(state.position(), loc(0, 1));
    assert_eq!(
        state.apply_input(&maze, GameInput::Move(MoveDirection::Right), 0),
        InputOutcome::Move(MoveOutcome::Blocked)
    );
}

#[test]
fn successful_move_clears_the_error() {
    let maze = fixture_maze();
    let mut state = GameState::new();
    assert_eq!(state.apply_move(&maze, MoveDirection::Up, 500), MoveOutcome::Blocked);
    assert!(state.is_blocked_error_visible(500));
    assert!(state.is_blocked_error_visible(3_499));
    assert!(!state.is_blocked_error_visible(3_500));
    assert_eq!(state.apply_move(&maze, MoveDirection::Right, 600), MoveOutcome::Moved);
    assert!(!state.is_blocked_error_visible(600));
}

#[test]
fn move_then_back_restores_the_trail() {
    let maze = fixture_maze();
    let mut state = GameState::new();
    let _ = state.apply_move(&maze, MoveDirection::Right, 0);
    let before: Vec<Location> = state.trail().to_vec();
    let position = state.position();
    assert_eq!(state.apply_move(&maze, MoveDirection::Down, 0), MoveOutcome::Finished);
    assert_eq!(state.apply_move(&maze, MoveDirection::Up, 0), MoveOutcome::Moved);
    assert_eq!(state.trail(), before.as_slice());
    assert_eq!(state.position(), position);
    // Back and forth again, starting with a step that pops the trail.
    assert_eq!(state.apply_move(&maze, MoveDirection::Left, 0), MoveOutcome::Moved);
    assert_eq!(state.trail(), [loc(0, 0)]);
    assert_eq!(state.apply_move(&maze, MoveDirection::Right, 0), MoveOutcome::Moved);
    assert_eq!(state.trail(), before.as_slice());
}

#[test]
fn trail_grows_forward_and_keeps_revisits() {
    // A 2x2 maze open everywhere inside, so the player can walk a loop.
    let maze = Maze::from_topology(
        2,
        2,
        vec![vec![true, false], vec![true, false]],
        vec![vec![true, true], vec![false, false]],
    )
    .unwrap();
    let mut state = GameState::new();
    for d in [MoveDirection::Right, MoveDirection::Down, MoveDirection::Left, MoveDirection::Up] {
        let _ = state.apply_move(&maze, d, 0);
    }
    assert_eq!(
        state.trail(),
        [loc(0, 0), loc(1, 0), loc(1, 1), loc(0, 1), loc(0, 0)]
    );
    assert_eq!(state.position(), loc(0, 0));
}

#[test]
fn default_and_clone_match_new() {
    let fresh = GameState::default();
    assert_eq!(fresh.position(), loc(0, 0));
    assert_eq!(fresh.trail(), [loc(0, 0)]);
    let maze = fixture_maze();
    let mut state = GameState::new();
    let _ = state.apply_move(&maze, MoveDirection::Right, 0);
    let copy = state.clone();
    assert_eq!(copy.trail(), state.trail());
    assert_eq!(copy.position(), state.position());
}

#[test]
fn game_step_without_input_continues_unchanged() {
    let maze = fixture_maze();
    let mut state = GameState::new();
    assert_eq!(game_step(&mut state, &maze, None, 10), GameAction::Continue);
    assert_eq!(state.position(), loc(0, 0));
    assert_eq!(state.trail(), &[loc(0, 0)][..]);
    assert!(!state.is_blocked_error_visible(10));
}

#[test]
fn game_step_quit_stops() {
    let maze = fixture_maze();
    let mut state = GameState::new();
    assert_eq!(game_step(&mut state, &maze, Some(GameInput::Quit), 10), GameAction::Stop);
    assert_eq!(state.position(), loc(0, 0));
}

#[test]
fn game_step_moves_and_stops_with_a_last_frame_at_the_finish() {
    let maze = fixture_maze();
    let mut state = GameState::new();
    let up = Some(GameInput::Move(MoveDirection::Up));
    assert_eq!(game_step(&mut state, &maze, up, 1000), GameAction::Continue);
    assert!(state.is_blocked_error_visible(3999));
    assert!(!state.is_blocked_error_visible(4000));
    let right = Some(GameInput::Move(MoveDirection::Right));
    assert_eq!(game_step(&mut state, &maze, right, 1100), GameAction::Continue);
    assert_eq!(state.position(), loc(1, 0));
    assert!(!state.is_blocked_error_visible(1100));
    let down = Some(GameInput::Move(MoveDirection::Down));
    assert_eq!(game_step(&mut state, &maze, down, 1200), GameAction::DrawAndStop);
    assert_eq!(state.position(), loc(1, 1));
    assert_eq!(state.trail(), &[loc(0, 0), loc(1, 0), loc(1, 1)][..]);
}
