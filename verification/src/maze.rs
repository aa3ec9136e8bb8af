//! The maze itself: a grid of cells with open or closed walls, how it is built
//! (at random or from a given topology), checked, walked and solved.
use vstd::prelude::*;

mod connectivity;
pub mod generate;
pub mod drawing_laws;
pub mod markers;
pub mod render;
pub mod solve;
pub mod topology_input;

use crate::random::random_ratio;
use crate::text::{decimal, push_decimal};
use crate::topology::{lemma_direction_step, Direction, Location, MazeModel};

verus! {

pub type Size = usize;

/// A route through the maze, one location per visited cell.
pub type Path = Vec<Location>;

#[derive(Debug, Copy, Clone)]
struct MazeSize {
    width: Size,
    height: Size,
}

#[derive(Debug, Copy, Clone)]
struct Cell {
    maze_size: MazeSize,
    location: Location,
    can_exit_south: bool,
    can_exit_east: bool,
}

/// A rectangular maze of `width` by `height` cells. Every wall of the right
/// column and of the bottom row is closed.
#[derive(Debug)]
pub struct Maze {
    size: MazeSize,
    cells: Vec<Vec<Cell>>,
}

/// Why [`Maze::from_topology`] refused its input.
#[derive(Debug, Clone, PartialEq, Eq, Structural)]
pub enum FromTopologyError {
    InvalidDimensions,
    EastOpenHeightMismatch,
    SouthOpenHeightMismatch,
    EastOpenRowWidthMismatch { row: usize, expected: usize },
    SouthOpenRowWidthMismatch { row: usize, expected: usize },
    EastOpenRightBoundaryOpen { row: usize },
    SouthOpenBottomBoundaryOpen { column: usize },
    NotFullyConnected,
}

/// The largest grids whose text rendering still has line lengths and line
/// counts that fit in a `usize`.
pub open spec fn dimensions_fit(width: int, height: int) -> bool {
    &&& width * 6 + 1 <= usize::MAX
    &&& height * 3 + 2 <= usize::MAX
}

/// A wall that may be opened is opened with probability
/// `OPENING_NUMERATOR / OPENING_DENOMINATOR`.
const OPENING_NUMERATOR: u32 = 7;

const OPENING_DENOMINATOR: u32 = 20;

impl Cell {
    /// A cell at `(x, y)` of a `width` by `height` maze whose east and south
    /// walls are opened at random, except on the right and bottom boundaries.
    fn new(x: Size, y: Size, width: Size, height: Size) -> (c: Cell)
        requires
            x < width,
            y < height,
        ensures
            c.maze_size == (MazeSize { width, height }),
            c.location == (Location { x, y }),
            x == width - 1 ==> !c.can_exit_east,
            y == height - 1 ==> !c.can_exit_south,
    {
        Cell {
            maze_size: MazeSize { width, height },
            location: Location { x, y },
            can_exit_south: Cell::get_can_exit(y, height),
            can_exit_east: Cell::get_can_exit(x, width),
        }
    }

    /// Whether to open the wall after position `x_or_y` of a line of
    /// `width_or_height` cells: never after the last cell, at random otherwise.
    fn get_can_exit(x_or_y: Size, width_or_height: Size) -> (b: bool)
        requires
            width_or_height >= 1,
        ensures
            x_or_y >= width_or_height - 1 ==> !b,
    {
        if x_or_y < width_or_height - 1 {
            random_ratio(OPENING_NUMERATOR, OPENING_DENOMINATOR)
        } else {
            false
        }
    }

    /// The marker drawn in the middle of the cell: `S` at the start, `F` at the finish.
    fn get_center_char(&self) -> (c: char)
        requires
            self.wf(),
        ensures
            c == if self.location.x == 0 && self.location.y == 0 {
                'S'
            } else if self.location.x == self.maze_size.width - 1 && self.location.y
                == self.maze_size.height - 1 {
                'F'
            } else {
                ' '
            },
    {
        if self.is_start() {
            'S'
        } else if self.is_finish() {
            'F'
        } else {
            ' '
        }
    }

    spec fn wf(self) -> bool {
        &&& self.maze_size.width >= 1
        &&& self.maze_size.height >= 1
        &&& self.location.x < self.maze_size.width
        &&& self.location.y < self.maze_size.height
    }

    fn is_first_in_row(&self) -> (b: bool)
        ensures
            b == (self.location.x == 0),
    {
        self.location.x == 0
    }

    fn is_last_in_row(&self) -> (b: bool)
        requires
            self.wf(),
        ensures
            b == (self.location.x == self.maze_size.width - 1),
    {
        self.location.x == self.maze_size.width - 1
    }

    fn is_first_in_col(&self) -> (b: bool)
        ensures
            b == (self.location.y == 0),
    {
        self.location.y == 0
    }

    fn is_last_in_col(&self) -> (b: bool)
        requires
            self.wf(),
        ensures
            b == (self.location.y == self.maze_size.height - 1),
    {
        self.location.y == self.maze_size.height - 1
    }

    fn is_start(&self) -> (b: bool)
        ensures
            b == (self.location.x == 0 && self.location.y == 0),
    {
        self.is_first_in_row() && self.is_first_in_col()
    }

    fn is_finish(&self) -> (b: bool)
        requires
            self.wf(),
        ensures
            b == (self.location.x == self.maze_size.width - 1 && self.location.y
                == self.maze_size.height - 1),
    {
        self.is_last_in_row() && self.is_last_in_col()
    }
}

impl Maze {
    #[verifier::type_invariant]
    spec fn inv(self) -> bool {
        let w = self.size.width;
        let h = self.size.height;
        &&& w >= 1
        &&& h >= 1
        &&& self.cells@.len() == h
        &&& forall|y: int| 0 <= y < h ==> (#[trigger] self.cells@[y])@.len() == w
        &&& forall|x: int, y: int|
            0 <= x < w && 0 <= y < h ==> (#[trigger] self.cells@[y]@[x]).location == Location {
                x: x as usize,
                y: y as usize,
            } && self.cells@[y]@[x].maze_size == self.size
        &&& forall|y: int| 0 <= y < h ==> !(#[trigger] self.cells@[y]@[w - 1]).can_exit_east
        &&& forall|x: int| 0 <= x < w ==> !(#[trigger] self.cells@[h - 1]@[x]).can_exit_south
    }

    /// The topology of the maze.
    pub closed spec fn model(&self) -> MazeModel {
        let w = self.size.width as int;
        let h = self.size.height as int;
        MazeModel {
            width: w as nat,
            height: h as nat,
            east: Seq::new(h as nat, |y: int| Seq::new(w as nat, |x: int| self.cells@[y]@[x].can_exit_east)),
            south: Seq::new(h as nat, |y: int| Seq::new(w as nat, |x: int| self.cells@[y]@[x].can_exit_south)),
        }
    }

    proof fn lemma_model(&self)
        requires
            self.inv(),
        ensures
            self.model().well_formed(),
            self.model().width == self.size.width,
            self.model().height == self.size.height,
            forall|x: int, y: int|
                0 <= x < self.size.width && 0 <= y < self.size.height ==> {
                    &&& (#[trigger] self.cells@[y]@[x]).can_exit_east == self.model().east_open(x, y)
                    &&& self.cells@[y]@[x].can_exit_south == self.model().south_open(x, y)
                    &&& self.cells@[y]@[x].wf()
                },
    {
        let m = self.model();
        assert forall|y: int| 0 <= y < m.height implies !#[trigger] m.east[y][m.width - 1] by {
            assert(!self.cells@[y]@[self.size.width - 1].can_exit_east);
        }
        assert forall|x: int| 0 <= x < m.width implies !#[trigger] m.south[m.height - 1][x] by {
            assert(!self.cells@[self.size.height - 1]@[x].can_exit_south);
        }
    }

    fn is_in_bounds(&self, location: Location) -> (b: bool)
        ensures
            b == self@.in_bounds(location),
    {
        proof {
            use_type_invariant(self);
        }
        location.x < self.size.width && location.y < self.size.height
    }

    fn is_start_location(&self, location: Location) -> (b: bool)
        ensures
            b == (location == self@.start()),
    {
        location == Location { x: 0, y: 0 }
    }

    fn is_finish_location(&self, location: Location) -> (b: bool)
        ensures
            b == (location == self@.finish()),
    {
        proof {
            use_type_invariant(self);
        }
        location == Location { x: self.size.width - 1, y: self.size.height - 1 }
    }

    fn get_location(&self, cur_location: &Location, direction: &Direction) -> (l: Option<Location>)
        ensures
            l == self@.neighbor(*cur_location, *direction),
    {
        proof {
            use_type_invariant(self);
        }
        match direction {
            Direction::North if cur_location.y >= 1 => Some(
                Location { x: cur_location.x, y: cur_location.y - 1 },
            ),
            Direction::East if cur_location.x < self.size.width - 1 => Some(
                Location { x: cur_location.x + 1, y: cur_location.y },
            ),
            Direction::South if cur_location.y < self.size.height - 1 => Some(
                Location { x: cur_location.x, y: cur_location.y + 1 },
            ),
            Direction::West if cur_location.x >= 1 => Some(
                Location { x: cur_location.x - 1, y: cur_location.y },
            ),
            _ => None,
        }
    }

    fn get_cell_in(&self, cur_cell: &Cell, direction: &Direction) -> (c: Option<&Cell>)
        requires
            self@.in_bounds(cur_cell.location),
        ensures
            match self@.neighbor(cur_cell.location, *direction) {
                Some(n) => c == Some(&self.cells@[n.y as int]@[n.x as int]),
                None => c is None,
            },
    {
        proof {
            use_type_invariant(self);
            self.lemma_model();
            lemma_direction_step(self@, cur_cell.location, *direction);
        }
        match self.get_location(&cur_cell.location, direction) {
            Some(new_location) => Some(&self.cells[new_location.y][new_location.x]),
            None => None,
        }
    }

    fn can_move(&self, cur_cell: &Cell, direction: &Direction) -> (b: bool)
        requires
            self@.in_bounds(cur_cell.location),
            cur_cell == self.cells@[cur_cell.location.y as int]@[cur_cell.location.x as int],
        ensures
            b == self@.open_toward(cur_cell.location, *direction),
    {
        proof {
            use_type_invariant(self);
            self.lemma_model();
        }
        match direction {
            Direction::North => match self.get_cell_in(cur_cell, &Direction::North) {
                Some(north_cell) => north_cell.can_exit_south,
                None => false,
            },
            Direction::East => cur_cell.can_exit_east,
            Direction::South => cur_cell.can_exit_south,
            Direction::West => match self.get_cell_in(cur_cell, &Direction::West) {
                Some(west_cell) => west_cell.can_exit_east,
                None => false,
            },
        }
    }

    /// The width and height of the maze (every maze is well formed).
    pub fn size(&self) -> (s: (usize, usize))
        ensures
            s.0 == self@.width,
            s.1 == self@.height,
            self@.well_formed(),
    {
        proof {
            use_type_invariant(self);
            self.lemma_model();
        }
        (self.size.width, self.size.height)
    }

    /// Whether a maze of `width` by `height` cells can be drawn: the lines of its
    /// drawing must be countable and indexable in a `usize`.
    pub fn drawable(width: usize, height: usize) -> (b: bool)
        ensures
            b == dimensions_fit(width as int, height as int),
    {
        let line_width_fits = match width.checked_mul(6) {
            Some(w6) => w6 < usize::MAX,
            None => false,
        };
        let line_count_fits = match height.checked_mul(3) {
            Some(h3) => h3 <= usize::MAX - 2,
            None => false,
        };
        line_width_fits && line_count_fits
    }

    /// Whether one can move from `from` to `to` in one step: both in bounds,
    /// cardinally adjacent, and the wall between them open.
    pub fn can_move_between(&self, from: Location, to: Location) -> (b: bool)
        ensures
            b == self@.step(from, to),
            self@.well_formed(),
    {
        proof {
            use_type_invariant(self);
            self.lemma_model();
        }
        if !self.is_in_bounds(from) || !self.is_in_bounds(to) {
            return false;
        }
        if from.x == to.x && from.y + 1 == to.y {
            return self.can_move(&self.cells[from.y][from.x], &Direction::South);
        }
        if from.x == to.x && from.y == to.y + 1 {
            return self.can_move(&self.cells[from.y][from.x], &Direction::North);
        }
        if from.y == to.y && from.x + 1 == to.x {
            return self.can_move(&self.cells[from.y][from.x], &Direction::East);
        }
        if from.y == to.y && from.x == to.x + 1 {
            return self.can_move(&self.cells[from.y][from.x], &Direction::West);
        }
        false
    }
}

/// The four directions, in the order in which the maze looks around a cell.
pub(crate) open spec fn direction_rank(d: Direction) -> int {
    match d {
        Direction::North => 0,
        Direction::East => 1,
        Direction::South => 2,
        Direction::West => 3,
    }
}

pub(crate) fn all_directions() -> (a: [Direction; 4])
    ensures
        forall|i: int| 0 <= i < 4 ==> direction_rank(#[trigger] a@[i]) == i,
{
    [Direction::North, Direction::East, Direction::South, Direction::West]
}

impl FromTopologyError {
    /// The message that describes the problem.
    pub open spec fn message(&self) -> Seq<char> {
        match *self {
            FromTopologyError::InvalidDimensions => "width and height must be >= 2"@,
            FromTopologyError::EastOpenHeightMismatch => "east_open must have one row per maze row"@,
            FromTopologyError::SouthOpenHeightMismatch => "south_open must have one row per maze row"@,
            FromTopologyError::EastOpenRowWidthMismatch { row, expected } => "east_open row "@ + decimal(
                row as nat,
            ) + " must have length "@ + decimal(expected as nat),
            FromTopologyError::SouthOpenRowWidthMismatch { row, expected } => "south_open row "@ + decimal(
                row as nat,
            ) + " must have length "@ + decimal(expected as nat),
            FromTopologyError::EastOpenRightBoundaryOpen { row } => "east_open right boundary must be closed at row "@
                + decimal(row as nat),
            FromTopologyError::SouthOpenBottomBoundaryOpen { column } =>
                "south_open bottom boundary must be closed at column "@ + decimal(column as nat),
            FromTopologyError::NotFullyConnected => "maze must be fully connected from start"@,
        }
    }

    /// The message that describes the problem, as a string.
    pub fn to_string(&self) -> (s: String)
        ensures
            s@ == self.message(),
    {
        match self {
            FromTopologyError::InvalidDimensions => String::from_str("width and height must be >= 2"),
            FromTopologyError::EastOpenHeightMismatch => String::from_str(
                "east_open must have one row per maze row",
            ),
            FromTopologyError::SouthOpenHeightMismatch => String::from_str(
                "south_open must have one row per maze row",
            ),
            FromTopologyError::EastOpenRowWidthMismatch { row, expected } => {
                let mut s = String::from_str("east_open row ");
                push_decimal(&mut s, *row);
                s.append(" must have length ");
                push_decimal(&mut s, *expected);
                s
            },
            FromTopologyError::SouthOpenRowWidthMismatch { row, expected } => {
                let mut s = String::from_str("south_open row ");
                push_decimal(&mut s, *row);
                s.append(" must have length ");
                push_decimal(&mut s, *expected);
                s
            },
            FromTopologyError::EastOpenRightBoundaryOpen { row } => {
                let mut s = String::from_str("east_open right boundary must be closed at row ");
                push_decimal(&mut s, *row);
                s
            },
            FromTopologyError::SouthOpenBottomBoundaryOpen { column } => {
                let mut s = String::from_str("south_open bottom boundary must be closed at column ");
                push_decimal(&mut s, *column);
                s
            },
            FromTopologyError::NotFullyConnected => String::from_str(
                "maze must be fully connected from start",
            ),
        }
    }
}

impl View for Maze {
    type V = MazeModel;

    open spec fn view(&self) -> MazeModel {
        self.model()
    }
}

} // verus!
