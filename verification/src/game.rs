//! The interactive game: a player walks from the start of a maze toward the
//! finish, leaving a trail; a move into a wall is refused and shows an error
//! for a while.
use vstd::prelude::*;

use crate::maze::render::{blocked_message, game_lines, path_fits};
use crate::maze::{dimensions_fit, Maze, Path};
use crate::text::text_of;
use crate::topology::{lemma_route_push, lemma_step_symmetric, Location, MazeModel};

verus! {

/// How long, in milliseconds, the error about a blocked move stays visible.
pub const BLOCKED_MOVE_ERROR_DURATION: u64 = 3000;

#[derive(Debug, Copy, Clone, PartialEq, Eq, Structural)]
pub enum MoveDirection {
    Up,
    Right,
    Down,
    Left,
}

#[derive(Debug, Copy, Clone, PartialEq, Eq, Structural)]
pub enum GameInput {
    Move(MoveDirection),
    Quit,
}

#[derive(Debug, Copy, Clone, PartialEq, Eq, Structural)]
pub enum MoveOutcome {
    Moved,
    Blocked,
    Finished,
}

#[derive(Debug, Copy, Clone, PartialEq, Eq, Structural)]
pub enum InputOutcome {
    Move(MoveOutcome),
    Quit,
}

/// A key of the keyboard, as far as the game tells keys apart.
#[derive(Debug, Copy, Clone, PartialEq, Eq, Structural)]
pub enum Key {
    Esc,
    Char(char),
    Up,
    Right,
    Down,
    Left,
    Other,
}

/// A keyboard event: which key, whether it was pressed (rather than repeated
/// or released), and whether Control was held.
#[derive(Debug, Copy, Clone, PartialEq, Eq, Structural)]
pub struct KeyStroke {
    pub key: Key,
    pub is_press: bool,
    pub control: bool,
}

/// The game input that a keyboard event stands for: Escape or Control-C quit,
/// the arrow keys move; only key presses count.
pub open spec fn key_input(stroke: KeyStroke) -> Option<GameInput> {
    if !stroke.is_press {
        None
    } else {
        match stroke.key {
            Key::Esc => Some(GameInput::Quit),
            Key::Char(c) => if c == 'c' && stroke.control {
                Some(GameInput::Quit)
            } else {
                None
            },
            Key::Up => Some(GameInput::Move(MoveDirection::Up)),
            Key::Right => Some(GameInput::Move(MoveDirection::Right)),
            Key::Down => Some(GameInput::Move(MoveDirection::Down)),
            Key::Left => Some(GameInput::Move(MoveDirection::Left)),
            Key::Other => None,
        }
    }
}

/// Each arrow key pressed moves the player in its own direction, whether or
/// not Control is held; Escape pressed quits; a key that is only released or
/// repeated does nothing.
pub proof fn lemma_arrow_keys(stroke: KeyStroke)
    ensures
        stroke.is_press && stroke.key == Key::Up ==> key_input(stroke) == Some(GameInput::Move(MoveDirection::Up)),
        stroke.is_press && stroke.key == Key::Down ==> key_input(stroke) == Some(GameInput::Move(MoveDirection::Down)),
        stroke.is_press && stroke.key == Key::Left ==> key_input(stroke) == Some(GameInput::Move(MoveDirection::Left)),
        stroke.is_press && stroke.key == Key::Right ==> key_input(stroke) == Some(
            GameInput::Move(MoveDirection::Right),
        ),
        stroke.is_press && stroke.key == Key::Esc ==> key_input(stroke) == Some(GameInput::Quit),
        stroke.is_press && stroke.key == Key::Char('c') && stroke.control ==> key_input(stroke) == Some(
            GameInput::Quit,
        ),
        stroke.key == Key::Char('c') && !stroke.control ==> key_input(stroke) is None,
        stroke.key == Key::Other ==> key_input(stroke) is None,
        !stroke.is_press ==> key_input(stroke) is None,
{
}

/// Opposite arrow keys give opposite moves, and a move followed by the move of
/// the opposite arrow key can be undone (see `lemma_move_then_back`).
pub proof fn lemma_opposite_arrow_keys(up: KeyStroke, down: KeyStroke, left: KeyStroke, right: KeyStroke)
    requires
        up.is_press && up.key == Key::Up,
        down.is_press && down.key == Key::Down,
        left.is_press && left.key == Key::Left,
        right.is_press && right.key == Key::Right,
    ensures
        key_input(up) matches Some(GameInput::Move(u)) && key_input(down) == Some(GameInput::Move(opposite(u))),
        key_input(left) matches Some(GameInput::Move(l)) && key_input(right) == Some(GameInput::Move(opposite(l))),
        key_input(up) != key_input(left),
{
}

/// Which cell a move goes to: up lowers the row, down raises it, left lowers
/// the column, right raises it.
pub proof fn lemma_move_directions(from: Location)
    requires
        from.x < usize::MAX,
        from.y < usize::MAX,
    ensures
        from.y > 0 ==> candidate(from, MoveDirection::Up) == Some(Location { x: from.x, y: (from.y - 1) as usize }),
        candidate(from, MoveDirection::Down) == Some(Location { x: from.x, y: (from.y + 1) as usize }),
        from.x > 0 ==> candidate(from, MoveDirection::Left) == Some(Location { x: (from.x - 1) as usize, y: from.y }),
        candidate(from, MoveDirection::Right) == Some(Location { x: (from.x + 1) as usize, y: from.y }),
        from.y == 0 ==> candidate(from, MoveDirection::Up) is None,
        from.x == 0 ==> candidate(from, MoveDirection::Left) is None,
{
}

/// The game input for a keyboard event, if any.
pub fn map_key_event_to_game_input(key_event: KeyStroke) -> (input: Option<GameInput>)
    ensures
        input == key_input(key_event),
{
    if !key_event.is_press {
        return None;
    }
    if key_event.key == Key::Esc {
        return Some(GameInput::Quit);
    }
    if key_event.key == Key::Char('c') && key_event.control {
        return Some(GameInput::Quit);
    }
    match key_event.key {
        Key::Up => Some(GameInput::Move(MoveDirection::Up)),
        Key::Right => Some(GameInput::Move(MoveDirection::Right)),
        Key::Down => Some(GameInput::Move(MoveDirection::Down)),
        Key::Left => Some(GameInput::Move(MoveDirection::Left)),
        _ => None,
    }
}

/// A source of the current time, in milliseconds since some fixed origin.
pub trait Clock {
    fn now(&self) -> u64;
}

/// The state of a game: the player's trail from the start (the cells walked,
/// with steps taken back removed), the player's position (the last cell of the
/// trail), and until when the error about a blocked move is shown.
#[derive(Debug)]
pub struct GameState {
    trail: Path,
    position: Location,
    blocked_until: Option<u64>,
}

/// A game state as plain values.
pub struct GameStateView {
    pub trail: Seq<Location>,
    pub position: Location,
    pub blocked_until: Option<u64>,
}

/// No cell of `t` is followed, two steps later, by itself: the trail never
/// holds a step immediately taken back.
pub open spec fn no_backtrack(t: Seq<Location>) -> bool {
    forall|i: int| 0 <= i < t.len() - 2 ==> #[trigger] t[i] != t[i + 2]
}

/// The cell next to `from` in direction `d`, if the coordinates allow one.
pub open spec fn candidate(from: Location, d: MoveDirection) -> Option<Location> {
    match d {
        MoveDirection::Up => if from.y > 0 {
            Some(Location { x: from.x, y: (from.y - 1) as usize })
        } else {
            None
        },
        MoveDirection::Right => Some(Location { x: (from.x + 1) as usize, y: from.y }),
        MoveDirection::Down => Some(Location { x: from.x, y: (from.y + 1) as usize }),
        MoveDirection::Left => if from.x > 0 {
            Some(Location { x: (from.x - 1) as usize, y: from.y })
        } else {
            None
        },
    }
}

/// Where a move in direction `d` from `from` leads in maze `m`, if the way is open.
pub open spec fn destination(m: MazeModel, from: Location, d: MoveDirection) -> Option<Location> {
    match candidate(from, d) {
        Some(c) => if m.step(from, c) {
            Some(c)
        } else {
            None
        },
        None => None,
    }
}

/// The trail after moving to `p`: a step back to the previous cell of the
/// trail removes the last cell; any other step appends `p`.
pub open spec fn trail_after(t: Seq<Location>, p: Location) -> Seq<Location> {
    if t.len() >= 2 && p == t[t.len() - 2] {
        t.drop_last()
    } else {
        t.push(p)
    }
}

impl GameStateView {
    /// The trail is a route in `m` from the start to the player's position.
    pub open spec fn valid_for(self, m: MazeModel) -> bool {
        m.route(self.trail, m.start(), self.position)
    }

    pub open spec fn is_error_visible(self, now: u64) -> bool {
        match self.blocked_until {
            Some(until) => now < until,
            None => false,
        }
    }
}

impl View for GameState {
    type V = GameStateView;

    closed spec fn view(&self) -> GameStateView {
        GameStateView { trail: self.trail@, position: self.position, blocked_until: self.blocked_until }
    }
}

impl GameState {
    #[verifier::type_invariant]
    spec fn inv(self) -> bool {
        &&& self.trail@.len() >= 1
        &&& self.trail@[0] == Location { x: 0, y: 0 }
        &&& self.trail@.last() == self.position
        &&& no_backtrack(self.trail@)
        &&& self.position.x < usize::MAX
        &&& self.position.y < usize::MAX
    }

    /// A new game: the player at the start, the trail holding only the start.
    pub fn new() -> (s: Self)
        ensures
            s@.position == (Location { x: 0, y: 0 }),
            s@.trail == seq![Location { x: 0, y: 0 }],
            s@.blocked_until is None,
            forall|m: MazeModel| m.well_formed() ==> #[trigger] s@.valid_for(m),
    {
        let start = Location { x: 0, y: 0 };
        let mut trail: Path = Vec::new();
        trail.push(start);
        Self { trail, position: start, blocked_until: None }
    }

    pub fn position(&self) -> (p: Location)
        ensures
            p == self@.position,
    {
        self.position
    }

    /// The cells walked from the start to the player's position, with steps
    /// taken back removed: it starts at the start, ends at the player and never
    /// holds a step immediately taken back.
    pub fn trail(&self) -> (t: &[Location])
        ensures
            t@ == self@.trail,
            t@.len() >= 1,
            t@[0] == (Location { x: 0, y: 0 }),
            t@.last() == self@.position,
            no_backtrack(t@),
            self@.position.x < usize::MAX,
            self@.position.y < usize::MAX,
    {
        proof {
            use_type_invariant(self);
        }
        self.trail.as_slice()
    }

    /// Whether the player stands on the finish cell of `maze`.
    pub fn is_finished(&self, maze: &Maze) -> (b: bool)
        ensures
            b == (self@.position == maze@.finish()),
    {
        let (width, height) = maze.size();
        self.position == Location { x: width - 1, y: height - 1 }
    }

    /// Whether the error about a blocked move is shown at time `now`.
    pub fn is_blocked_error_visible(&self, now: u64) -> (b: bool)
        ensures
            b == self@.is_error_visible(now),
    {
        match self.blocked_until {
            Some(until) => now < until,
            None => false,
        }
    }

    /// Moves the player one cell in `direction` if the wall is open. A blocked
    /// move leaves the player and the trail as they were and shows the error
    /// until `now + BLOCKED_MOVE_ERROR_DURATION`; a move clears the error.
    pub fn apply_move(&mut self, maze: &Maze, direction: MoveDirection, now: u64) -> (outcome: MoveOutcome)
        requires
            now + BLOCKED_MOVE_ERROR_DURATION <= u64::MAX,
        ensures
            match destination(maze@, old(self)@.position, direction) {
                None => {
                    &&& outcome == MoveOutcome::Blocked
                    &&& final(self)@.position == old(self)@.position
                    &&& final(self)@.trail == old(self)@.trail
                    &&& final(self)@.blocked_until == Some((now + BLOCKED_MOVE_ERROR_DURATION) as u64)
                },
                Some(p) => {
                    &&& final(self)@.position == p
                    &&& final(self)@.trail == trail_after(old(self)@.trail, p)
                    &&& final(self)@.blocked_until is None
                    &&& outcome == if p == maze@.finish() {
                        MoveOutcome::Finished
                    } else {
                        MoveOutcome::Moved
                    }
                },
            },
            old(self)@.valid_for(maze@) ==> final(self)@.valid_for(maze@),
    {
        proof {
            use_type_invariant(&*self);
        }
        let next_position = match self.next_position(maze, direction) {
            Some(p) => p,
            None => {
                self.blocked_until = Some(now + BLOCKED_MOVE_ERROR_DURATION);
                return MoveOutcome::Blocked;
            },
        };
        let ghost old_view = self@;
        let mut trail = self.trail.clone();
        proof {
            assert forall|i: int| 0 <= i < trail@.len() implies trail@[i] == self.trail@[i] by {
                assert(cloned::<Location>(self.trail@[i], trail@[i]));
            }
            assert(trail@ =~= self.trail@);
        }
        if trail.len() >= 2 && next_position == trail[trail.len() - 2] {
            trail.pop();
        } else {
            trail.push(next_position);
        }
        proof {
            let t = old_view.trail;
            assert(trail@ == trail_after(t, next_position));
            assert(no_backtrack(trail@)) by {
                if t.len() >= 2 && next_position == t[t.len() - 2] {
                    assert forall|i: int| 0 <= i < trail@.len() - 2 implies #[trigger] trail@[i] != trail@[i + 2] by {
                        assert(t[i] != t[i + 2]);
                    }
                } else {
                    assert forall|i: int| 0 <= i < trail@.len() - 2 implies #[trigger] trail@[i] != trail@[i + 2] by {
                        if i + 2 < t.len() {
                            assert(t[i] != t[i + 2]);
                        }
                    }
                }
            }
            if old_view.valid_for(maze@) {
                lemma_trail_after_route(maze@, t, next_position);
            }
        }
        *self = GameState { trail, position: next_position, blocked_until: None };
        if self.is_finished(maze) {
            MoveOutcome::Finished
        } else {
            MoveOutcome::Moved
        }
    }

    /// Applies one input: a move, or the request to quit (which changes nothing).
    pub fn apply_input(&mut self, maze: &Maze, input: GameInput, now: u64) -> (outcome: InputOutcome)
        requires
            input is Move ==> now + BLOCKED_MOVE_ERROR_DURATION <= u64::MAX,
        ensures
            match input {
                GameInput::Quit => outcome == InputOutcome::Quit && final(self)@ == old(self)@,
                GameInput::Move(direction) => match destination(maze@, old(self)@.position, direction) {
                    None => {
                        &&& outcome == InputOutcome::Move(MoveOutcome::Blocked)
                        &&& final(self)@.position == old(self)@.position
                        &&& final(self)@.trail == old(self)@.trail
                        &&& final(self)@.blocked_until == Some((now + BLOCKED_MOVE_ERROR_DURATION) as u64)
                    },
                    Some(p) => {
                        &&& final(self)@.position == p
                        &&& final(self)@.trail == trail_after(old(self)@.trail, p)
                        &&& final(self)@.blocked_until is None
                        &&& outcome == InputOutcome::Move(
                            if p == maze@.finish() {
                                MoveOutcome::Finished
                            } else {
                                MoveOutcome::Moved
                            },
                        )
                    },
                },
            },
            old(self)@.valid_for(maze@) ==> final(self)@.valid_for(maze@),
    {
        match input {
            GameInput::Quit => InputOutcome::Quit,
            GameInput::Move(direction) => InputOutcome::Move(self.apply_move(maze, direction, now)),
        }
    }

    /// The game screen at time `now`: the maze with the trail, the player and,
    /// while it is visible, the error about a blocked move.
    pub fn render(&self, maze: &Maze, now: u64) -> (s: String)
        requires
            dimensions_fit(maze@.width as int, maze@.height as int),
            path_fits(maze@, self@.trail),
        ensures
            s@ == text_of(game_lines(maze@, self@.trail, self@.position)) + if self@.is_error_visible(now) {
                blocked_message()
            } else {
                Seq::<char>::empty()
            },
    {
        maze.render_game(&self.trail, self.position, self.is_blocked_error_visible(now))
    }

    /// The cell a move in `direction` leads to, if the wall on the way is open.
    fn next_position(&self, maze: &Maze, direction: MoveDirection) -> (next: Option<Location>)
        ensures
            next == destination(maze@, self@.position, direction),
            maze@.well_formed(),
    {
        let _ = maze.size();
        proof {
            use_type_invariant(self);
        }
        let candidate = match direction {
            MoveDirection::Up if self.position.y > 0 => Location { x: self.position.x, y: self.position.y - 1 },
            MoveDirection::Right => Location { x: self.position.x + 1, y: self.position.y },
            MoveDirection::Down => Location { x: self.position.x, y: self.position.y + 1 },
            MoveDirection::Left if self.position.x > 0 => Location { x: self.position.x - 1, y: self.position.y },
            _ => {
                return None;
            },
        };
        if maze.can_move_between(self.position, candidate) {
            Some(candidate)
        } else {
            None
        }
    }
}

impl Clone for GameState {
    fn clone(&self) -> (s: Self)
        ensures
            s@ == self@,
    {
        proof {
            use_type_invariant(self);
        }
        let trail = self.trail.clone();
        proof {
            assert forall|i: int| 0 <= i < trail@.len() implies trail@[i] == self.trail@[i] by {
                assert(cloned::<Location>(self.trail@[i], trail@[i]));
            }
            assert(trail@ =~= self.trail@);
        }
        GameState { trail, position: self.position, blocked_until: self.blocked_until }
    }
}

impl Default for GameState {
    fn default() -> (s: Self)
        ensures
            s@.position == (Location { x: 0, y: 0 }),
            s@.trail == seq![Location { x: 0, y: 0 }],
            s@.blocked_until is None,
    {
        Self::new()
    }
}

/// What the game loop does once an input has been handled.
#[derive(Debug, Copy, Clone, PartialEq, Eq, Structural)]
pub enum GameAction {
    /// Draw the next frame and wait for the next input.
    Continue,
    /// End the game at once.
    Stop,
    /// Draw the final frame, then end the game.
    DrawAndStop,
}

/// One turn of the game loop, after the frame was drawn and the player was not
/// on the finish: no input changes nothing; `Quit` stops the game; a move is
/// applied, and the game ends with a last frame when it reaches the finish.
pub fn game_step(state: &mut GameState, maze: &Maze, input: Option<GameInput>, now: u64) -> (a: GameAction)
    requires
        input matches Some(GameInput::Move(_)) ==> now + BLOCKED_MOVE_ERROR_DURATION <= u64::MAX,
    ensures
        match input {
            None => a == GameAction::Continue && final(state)@ == old(state)@,
            Some(GameInput::Quit) => a == GameAction::Stop && final(state)@ == old(state)@,
            Some(GameInput::Move(direction)) => match destination(maze@, old(state)@.position, direction) {
                None => {
                    &&& a == GameAction::Continue
                    &&& final(state)@.position == old(state)@.position
                    &&& final(state)@.trail == old(state)@.trail
                    &&& final(state)@.blocked_until == Some((now + BLOCKED_MOVE_ERROR_DURATION) as u64)
                },
                Some(p) => {
                    &&& final(state)@.position == p
                    &&& final(state)@.trail == trail_after(old(state)@.trail, p)
                    &&& final(state)@.blocked_until is None
                    &&& a == if p == maze@.finish() {
                        GameAction::DrawAndStop
                    } else {
                        GameAction::Continue
                    }
                },
            },
        },
        old(state)@.valid_for(maze@) ==> final(state)@.valid_for(maze@),
{
    match input {
        None => GameAction::Continue,
        Some(game_input) => match state.apply_input(maze, game_input, now) {
            InputOutcome::Quit => GameAction::Stop,
            InputOutcome::Move(MoveOutcome::Finished) => GameAction::DrawAndStop,
            InputOutcome::Move(_) => GameAction::Continue,
        },
    }
}

/// In a state whose trail is a route of `m` from the start, the player stands
/// in the maze and every step of the trail goes through an open wall.
pub proof fn lemma_valid_state(s: GameStateView, m: MazeModel)
    requires
        m.well_formed(),
        s.valid_for(m),
    ensures
        m.in_bounds(s.position),
        s.trail.len() >= 1,
        s.trail[0] == m.start(),
        s.trail.last() == s.position,
        forall|i: int| 0 <= i < s.trail.len() - 1 ==> m.step(#[trigger] s.trail[i], s.trail[i + 1]),
{
    assert forall|i: int| 0 <= i < s.trail.len() - 1 implies m.step(#[trigger] s.trail[i], s.trail[i + 1]) by {
        assert(m.walk_step(s.trail, i));
    }
    if s.trail.len() >= 2 {
        assert(m.walk_step(s.trail, s.trail.len() - 2));
    }
}

/// The direction that undoes a move in direction `d`.
pub open spec fn opposite(d: MoveDirection) -> MoveDirection {
    match d {
        MoveDirection::Up => MoveDirection::Down,
        MoveDirection::Right => MoveDirection::Left,
        MoveDirection::Down => MoveDirection::Up,
        MoveDirection::Left => MoveDirection::Right,
    }
}

/// A move followed by the opposite move brings the player back to where they
/// were, with the trail they had.
pub proof fn lemma_move_then_back(m: MazeModel, t: Seq<Location>, d: MoveDirection)
    requires
        t.len() >= 1,
        no_backtrack(t),
        t.last().x < usize::MAX,
        t.last().y < usize::MAX,
        destination(m, t.last(), d) is Some,
    ensures
        destination(m, destination(m, t.last(), d)->0, opposite(d)) == Some(t.last()),
        trail_after(trail_after(t, destination(m, t.last(), d)->0), t.last()) == t,
{
    let q = t.last();
    let p = destination(m, q, d)->0;
    lemma_step_symmetric(m, q, p);
    assert(candidate(p, opposite(d)) == Some(q));
    let t1 = trail_after(t, p);
    if t.len() >= 2 && p == t[t.len() - 2] {
        assert(t1 == t.drop_last());
        if t1.len() >= 2 {
            assert(t[t.len() - 3] != t[t.len() - 1]);
        }
        assert(trail_after(t1, q) =~= t);
    } else {
        assert(t1 == t.push(p));
        assert(trail_after(t1, q) =~= t);
    }
}

/// After a move blocked at time `now`, the error is visible exactly before
/// `now + BLOCKED_MOVE_ERROR_DURATION`.
pub proof fn lemma_blocked_error_window(s: GameStateView, now: u64, t: u64)
    requires
        now + BLOCKED_MOVE_ERROR_DURATION <= u64::MAX,
        s.blocked_until == Some((now + BLOCKED_MOVE_ERROR_DURATION) as u64),
    ensures
        s.is_error_visible(t) <==> t < now + BLOCKED_MOVE_ERROR_DURATION,
{
}

/// Moving along a route to a neighbour through an open wall, or back to the
/// previous cell, keeps the trail a route from the start.
proof fn lemma_trail_after_route(m: MazeModel, t: Seq<Location>, p: Location)
    requires
        m.route(t, m.start(), t.last()),
        m.step(t.last(), p),
    ensures
        m.route(trail_after(t, p), m.start(), p),
{
    if t.len() >= 2 && p == t[t.len() - 2] {
        let u = t.drop_last();
        assert forall|i: int| 0 <= i < u.len() - 1 implies #[trigger] m.walk_step(u, i) by {
            assert(m.walk_step(t, i));
        }
    } else {
        lemma_route_push(m, t, m.start(), t.last(), p);
    }
}

} // verus!
