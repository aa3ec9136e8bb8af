//! Generating a random maze in which every cell can be reached from the start.
use vstd::prelude::*;

use super::connectivity::{all_marked, cell_of, grid_shape};
use super::{all_directions, direction_rank, Cell, Maze, MazeSize, Size};
use crate::grid_count::{count_in_grid, lemma_count_agree, lemma_count_flip, lemma_count_mono};
use crate::random::shuffle;
use crate::topology::{
    lemma_direction_step, lemma_frontier, lemma_reachable_monotone, lemma_reachable_step, lemma_step_symmetric,
    Direction, Location, MazeModel,
};

verus! {

/// The number of closed walls inside or around the grid of `m`.
spec fn closed_walls(m: MazeModel) -> nat {
    count_in_grid(|x: int, y: int| !m.east[y][x], m.width as int, m.height as int) + count_in_grid(
        |x: int, y: int| !m.south[y][x],
        m.width as int,
        m.height as int,
    )
}

/// The number of cells of `m` that cannot be reached from the start.
spec fn unreachable_cells(m: MazeModel) -> nat {
    count_in_grid(
        |x: int, y: int| !m.reachable(Location { x: x as usize, y: y as usize }),
        m.width as int,
        m.height as int,
    )
}

/// `l` is not marked in `g` but one of its neighbours is.
spec fn on_frontier(m: MazeModel, g: Seq<Vec<bool>>, l: Location) -> bool {
    &&& m.in_bounds(l)
    &&& !cell_of(g, l)
    &&& exists|d: Direction| #[trigger] m.neighbor(l, d) is Some && cell_of(g, m.neighbor(l, d)->0)
}

/// `a` comes before `b` when the grid is read row by row.
pub open spec fn row_major_before(a: Location, b: Location) -> bool {
    a.y < b.y || (a.y == b.y && a.x < b.x)
}

/// `l` cannot be reached from the start of `m`, but one of its neighbours can.
pub open spec fn on_reachable_frontier(m: MazeModel, l: Location) -> bool {
    &&& m.in_bounds(l)
    &&& !m.reachable(l)
    &&& exists|d: Direction| #[trigger] m.neighbor(l, d) is Some && m.reachable(m.neighbor(l, d)->0)
}

/// `l` is the first cell on the frontier of the reachable cells, reading the
/// grid row by row.
pub open spec fn first_frontier(m: MazeModel, l: Location) -> bool {
    &&& on_reachable_frontier(m, l)
    &&& forall|k: Location| #[trigger] row_major_before(k, l) ==> !on_reachable_frontier(m, k)
}

/// The wall between `l` and its neighbour in direction `d`, as the cell that
/// owns it and whether it is that cell's east wall (else its south wall).
pub open spec fn wall_between(l: Location, d: Direction) -> (int, int, bool) {
    match d {
        Direction::North => (l.x as int, l.y - 1, false),
        Direction::East => (l.x as int, l.y as int, true),
        Direction::South => (l.x as int, l.y as int, false),
        Direction::West => (l.x - 1, l.y as int, true),
    }
}

/// `m` with the east wall (or the south wall) of cell `(x, y)` open.
pub open spec fn with_wall_opened(m: MazeModel, x: int, y: int, east_wall: bool) -> MazeModel {
    if east_wall {
        MazeModel { width: m.width, height: m.height, east: m.east.update(y, m.east[y].update(x, true)), south: m.south }
    } else {
        MazeModel { width: m.width, height: m.height, east: m.east, south: m.south.update(y, m.south[y].update(x, true)) }
    }
}

/// One round of the repair of `m`: the first cell on the frontier of the
/// reachable cells gets the wall toward one of its reachable neighbours opened.
pub open spec fn repair_round(m: MazeModel, n: MazeModel) -> bool {
    exists|l: Location, d: Direction|
        first_frontier(m, l) && #[trigger] m.neighbor(l, d) is Some && m.reachable(m.neighbor(l, d)->0) && n
            == with_wall_opened(m, wall_between(l, d).0, wall_between(l, d).1, wall_between(l, d).2)
}

/// `s` is a sequence of mazes, each obtained from the one before by a repair round.
pub open spec fn repair_run(s: Seq<MazeModel>) -> bool {
    &&& s.len() >= 1
    &&& forall|i: int| 0 <= i < s.len() - 1 ==> #[trigger] repair_round(s[i], s[i + 1])
}

impl Maze {
    /// Generates a random maze of `width` by `height` cells in which every cell
    /// can be reached from the start: walls are opened at random, then walls
    /// between unreachable and reachable cells are opened until none is left.
    pub fn new(width: Size, height: Size) -> (maze: Maze)
        requires
            width >= 1,
            height >= 1,
        ensures
            maze@.width == width,
            maze@.height == height,
            maze@.well_formed(),
            maze@.fully_connected(),
    {
        let mut cells: Vec<Vec<Cell>> = Vec::new();
        let mut y: usize = 0;
        while y < height
            invariant
                width >= 1,
                y <= height,
                cells@.len() == y,
                forall|j: int| 0 <= j < y ==> (#[trigger] cells@[j])@.len() == width,
                forall|i: int, j: int|
                    0 <= i < width && 0 <= j < y ==> {
                        let c = #[trigger] cells@[j]@[i];
                        &&& c.location == Location { x: i as usize, y: j as usize }
                        &&& c.maze_size == MazeSize { width, height }
                        &&& i == width - 1 ==> !c.can_exit_east
                        &&& j == height - 1 ==> !c.can_exit_south
                    },
            decreases height - y,
        {
            let mut row: Vec<Cell> = Vec::new();
            let mut x: usize = 0;
            while x < width
                invariant
                    y < height,
                    x <= width,
                    row@.len() == x,
                    forall|i: int|
                        0 <= i < x ==> {
                            let c = #[trigger] row@[i];
                            &&& c.location == Location { x: i as usize, y }
                            &&& c.maze_size == MazeSize { width, height }
                            &&& i == width - 1 ==> !c.can_exit_east
                            &&& y == height - 1 ==> !c.can_exit_south
                        },
                decreases width - x,
            {
                row.push(Cell::new(x, y, width, height));
                x = x + 1;
            }
            cells.push(row);
            y = y + 1;
        }
        let maze = Maze { cells, size: MazeSize { width, height } };
        let maze = maze.make_valid();
        proof {
            use_type_invariant(&maze);
            maze.lemma_model();
        }
        maze
    }

    /// The first cell, row by row, that is not marked in `visited` but has a
    /// marked neighbour.
    fn find_frontier(&self, visited: &Vec<Vec<bool>>) -> (found: Option<Location>)
        requires
            grid_shape(visited@, self@.width as int, self@.height as int),
        ensures
            match found {
                Some(l) => on_frontier(self@, visited@, l) && forall|k: Location|
                    #[trigger] row_major_before(k, l) ==> !on_frontier(self@, visited@, k),
                None => forall|k: Location| !#[trigger] on_frontier(self@, visited@, k),
            },
    {
        proof {
            use_type_invariant(self);
            self.lemma_model();
        }
        let ghost m = self@;
        let dirs = all_directions();
        let w = self.size.width;
        let h = self.size.height;
        let mut y: usize = 0;
        while y < h
            invariant
                m == self@,
                m.well_formed(),
                w == m.width,
                h == m.height,
                forall|i: int| 0 <= i < 4 ==> direction_rank(#[trigger] dirs@[i]) == i,
                grid_shape(visited@, w as int, h as int),
                y <= h,
                forall|k: Location| k.y < y ==> !#[trigger] on_frontier(m, visited@, k),
            decreases h - y,
        {
            let mut x: usize = 0;
            while x < w
                invariant
                    m == self@,
                    m.well_formed(),
                    w == m.width,
                    h == m.height,
                    forall|i: int| 0 <= i < 4 ==> direction_rank(#[trigger] dirs@[i]) == i,
                    grid_shape(visited@, w as int, h as int),
                    y < h,
                    x <= w,
                    forall|k: Location| (k.y < y || (k.y == y && k.x < x)) ==> !#[trigger] on_frontier(m, visited@, k),
                decreases w - x,
            {
                let location = Location { x, y };
                if !visited[y][x] {
                    let mut has_adjacent_connected_location = false;
                    let mut i: usize = 0;
                    while i < 4
                        invariant
                            m == self@,
                            m.well_formed(),
                            m.in_bounds(location),
                            w == m.width,
                            h == m.height,
                            forall|k: int| 0 <= k < 4 ==> direction_rank(#[trigger] dirs@[k]) == k,
                            grid_shape(visited@, w as int, h as int),
                            i <= 4,
                            has_adjacent_connected_location <==> exists|d: Direction|
                                direction_rank(d) < i && #[trigger] m.neighbor(location, d) is Some && cell_of(
                                    visited@,
                                    m.neighbor(location, d)->0,
                                ),
                        decreases 4 - i,
                    {
                        let dir = dirs[i];
                        proof {
                            lemma_direction_step(m, location, dir);
                        }
                        match self.get_location(&location, &dir) {
                            Some(adjacent_location) => {
                                assert(visited@[adjacent_location.y as int]@.len() == w);
                                if visited[adjacent_location.y][adjacent_location.x] {
                                    has_adjacent_connected_location = true;
                                }
                            },
                            None => {},
                        }
                        i = i + 1;
                    }
                    if has_adjacent_connected_location {
                        return Some(location);
                    }
                }
                x = x + 1;
            }
            y = y + 1;
        }
        proof {
            assert forall|k: Location| !#[trigger] on_frontier(m, visited@, k) by {
                if on_frontier(m, visited@, k) {
                    assert(k.y < h);
                }
            }
        }
        None
    }

    /// Opens walls until every cell can be reached from the start: each round
    /// finds the first unreachable cell next to a reachable one and opens the
    /// wall toward one such neighbour, picked in a random order of directions.
    fn make_valid(self) -> (maze: Maze)
        ensures
            maze@.width == self@.width,
            maze@.height == self@.height,
            maze@.fully_connected(),
            self@.walls_within(maze@),
            self@.fully_connected() ==> maze@ == self@,
            self@.opened_only_toward_unreachable(maze@),
            closed_walls(self@) <= closed_walls(maze@) + unreachable_cells(self@),
            exists|s: Seq<MazeModel>| #[trigger] repair_run(s) && s[0] == self@ && s.last() == maze@,
    {
        let ghost s0 = self@;
        let ghost w0 = self@.width;
        let ghost h0 = self@.height;
        let ghost mut hist: Seq<MazeModel> = seq![self@];
        let mut maze = self;
        loop
            invariant
                maze@.width == w0,
                maze@.height == h0,
                s0.width == w0,
                s0.height == h0,
                s0.walls_within(maze@),
                s0.opened_only_toward_unreachable(maze@),
                s0.fully_connected() ==> maze@ == s0,
                closed_walls(s0) + unreachable_cells(maze@) <= closed_walls(maze@) + unreachable_cells(s0),
                repair_run(hist),
                hist[0] == s0,
                hist.last() == maze@,
            ensures
                maze@.width == w0,
                maze@.height == h0,
                maze@.fully_connected(),
                s0.walls_within(maze@),
                s0.opened_only_toward_unreachable(maze@),
                s0.fully_connected() ==> maze@ == s0,
                closed_walls(s0) <= closed_walls(maze@) + unreachable_cells(s0),
                repair_run(hist),
                hist[0] == s0,
                hist.last() == maze@,
            decreases closed_walls(maze@),
        {
            proof {
                use_type_invariant(&maze);
                maze.lemma_model();
            }
            let ghost m = maze@;
            let visited_map = maze.generate_visitable_map();
            let has_disconnected_cell = !all_marked(&visited_map, maze.size.width, maze.size.height);
            if !has_disconnected_cell {
                proof {
                    assert forall|l: Location| m.in_bounds(l) implies #[trigger] m.reachable(l) by {
                        assert(cell_of(visited_map@, l));
                    }
                }
                break;
            }
            proof {
                let l = choose|l: Location| l.x < m.width && l.y < m.height && !cell_of(visited_map@, l);
                assert(m.in_bounds(l));
                assert(!m.reachable(l));
                assert(!s0.fully_connected());
                lemma_frontier(m, l);
                let (u, d) = choose|u: Location, d: Direction|
                    m.in_bounds(u) && !m.reachable(u) && #[trigger] m.neighbor(u, d) is Some
                        && m.reachable(m.neighbor(u, d)->0);
                lemma_direction_step(m, u, d);
                assert(on_frontier(m, visited_map@, u));
            }
            let location = match maze.find_frontier(&visited_map) {
                Some(location) => location,
                None => {
                    break;
                },
            };
            assert(on_frontier(m, visited_map@, location));
            proof {
                assert forall|k: Location| #[trigger] row_major_before(k, location) implies !on_reachable_frontier(
                    m,
                    k,
                ) by {
                    if on_reachable_frontier(m, k) {
                        let d = choose|d: Direction| #[trigger] m.neighbor(k, d) is Some && m.reachable(
                            m.neighbor(k, d)->0,
                        );
                        lemma_direction_step(m, k, d);
                        assert(on_frontier(m, visited_map@, k));
                    }
                }
                let d = choose|d: Direction| #[trigger] m.neighbor(location, d) is Some && cell_of(
                    visited_map@,
                    m.neighbor(location, d)->0,
                );
                lemma_direction_step(m, location, d);
                assert(on_reachable_frontier(m, location));
            }
            assert(first_frontier(m, location));
            let ghost target = choose|d: Direction|
                #[trigger] m.neighbor(location, d) is Some && cell_of(visited_map@, m.neighbor(location, d)->0);
            let mut shuffled_directions = vec![Direction::North, Direction::East, Direction::South, Direction::West];
            proof {
                broadcast use vstd::seq_lib::group_to_multiset_ensures;

                assert(shuffled_directions@.contains(target)) by {
                    match target {
                        Direction::North => assert(shuffled_directions@[0] == target),
                        Direction::East => assert(shuffled_directions@[1] == target),
                        Direction::South => assert(shuffled_directions@[2] == target),
                        Direction::West => assert(shuffled_directions@[3] == target),
                    }
                }
            }
            shuffle(&mut shuffled_directions);
            proof {
                broadcast use vstd::seq_lib::group_to_multiset_ensures;

                assert(shuffled_directions@.to_multiset().count(target) > 0);
            }
            let mut opened = false;
            let mut i: usize = 0;
            while i < shuffled_directions.len()
                invariant_except_break
                    !opened,
                    m == maze@,
                invariant
                    m.well_formed(),
                    m.width == w0,
                    m.height == h0,
                    grid_shape(visited_map@, w0 as int, h0 as int),
                    forall|l: Location| #[trigger] m.in_bounds(l) ==> (cell_of(visited_map@, l) <==> m.reachable(l)),
                    on_frontier(m, visited_map@, location),
                    shuffled_directions@.contains(target),
                    m.neighbor(location, target) is Some,
                    cell_of(visited_map@, m.neighbor(location, target)->0),
                    i <= shuffled_directions.len(),
                    forall|j: int| 0 <= j < i ==> #[trigger] shuffled_directions@[j] != target,
                    s0.width == w0,
                    s0.height == h0,
                    s0.walls_within(m),
                    s0.opened_only_toward_unreachable(m),
                    !s0.fully_connected(),
                    first_frontier(m, location),
                ensures
                    opened ==> repair_round(m, maze@),
                    opened ==> maze@.width == w0 && maze@.height == h0 && closed_walls(maze@) < closed_walls(m),
                    opened ==> s0.walls_within(maze@) && s0.opened_only_toward_unreachable(maze@),
                    opened ==> closed_walls(maze@) + 1 == closed_walls(m) && unreachable_cells(maze@) + 1
                        <= unreachable_cells(m),
                    !opened ==> forall|j: int| 0 <= j < shuffled_directions@.len() ==> #[trigger] shuffled_directions@[j] != target,
                decreases shuffled_directions.len() - i,
            {
                let dir = shuffled_directions[i];
                proof {
                    lemma_direction_step(m, location, dir);
                }
                if let Some(adjacent_location) = maze.get_location(&location, &dir) {
                    if visited_map[adjacent_location.y][adjacent_location.x] {
                        proof {
                            use_type_invariant(&maze);
                            maze.lemma_model();
                            if m.open_toward(location, dir) {
                                lemma_step_symmetric(m, location, adjacent_location);
                                lemma_reachable_step(m, adjacent_location, location);
                            }
                        }
                        let (wall_x, wall_y, east_wall) = match dir {
                            Direction::North => (adjacent_location.x, adjacent_location.y, false),
                            Direction::East => (location.x, location.y, true),
                            Direction::South => (location.x, location.y, false),
                            Direction::West => (adjacent_location.x, adjacent_location.y, true),
                        };
                        let ghost old_cells = maze.cells@;
                        let Maze { size, mut cells } = maze;
                        open_wall(&mut cells, wall_x, wall_y, east_wall);
                        proof {
                            assert forall|j: int| 0 <= j < size.height implies !(#[trigger] cells@[j]@[size.width - 1]).can_exit_east by {
                                assert(!old_cells[j]@[size.width - 1].can_exit_east);
                            }
                            assert forall|i: int| 0 <= i < size.width implies !(#[trigger] cells@[size.height - 1]@[i]).can_exit_south by {
                                assert(!old_cells[size.height - 1]@[i].can_exit_south);
                            }
                        }
                        maze = Maze { size, cells };
                        proof {
                            lemma_open_one_wall(m, maze@, wall_x as int, wall_y as int, east_wall);
                            assert(!m.reachable(location));
                            lemma_open_keeps_history(s0, m, maze@, wall_x as int, wall_y as int, east_wall);
                            let n = maze@;
                            assert(m.reachable(adjacent_location));
                            lemma_reachable_monotone(m, n, adjacent_location);
                            assert(n.step(location, adjacent_location));
                            lemma_step_symmetric(n, location, adjacent_location);
                            lemma_reachable_step(n, adjacent_location, location);
                            lemma_newly_reachable(m, n, location);
                            use_type_invariant(&maze);
                            maze.lemma_model();
                            lemma_opened_model(m, n, wall_x as int, wall_y as int, east_wall);
                            assert((wall_x as int, wall_y as int, east_wall) == wall_between(location, dir));
                            assert(first_frontier(m, location) && m.neighbor(location, dir) is Some && m.reachable(
                                m.neighbor(location, dir)->0,
                            ) && n == with_wall_opened(
                                m,
                                wall_between(location, dir).0,
                                wall_between(location, dir).1,
                                wall_between(location, dir).2,
                            ));
                        }
                        opened = true;
                        break;
                    }
                }
                i = i + 1;
            }
            if !opened {
                proof {
                    broadcast use vstd::seq_lib::group_to_multiset_ensures;

                    let j = choose|j: int| 0 <= j < shuffled_directions@.len() && shuffled_directions@[j] == target;
                    assert(shuffled_directions@[j] != target);
                }
                break;
            }
            proof {
                let old_hist = hist;
                hist = hist.push(maze@);
                assert forall|i: int| 0 <= i < hist.len() - 1 implies #[trigger] repair_round(hist[i], hist[i + 1]) by {
                    if i < old_hist.len() - 1 {
                        assert(repair_round(old_hist[i], old_hist[i + 1]));
                    }
                }
            }
        };
        proof {
            assert(repair_run(hist) && hist[0] == s0 && hist.last() == maze@);
        }
        maze
    }
}

/// Opening one closed wall lowers the number of closed walls.
proof fn lemma_open_one_wall(m: MazeModel, n: MazeModel, x: int, y: int, east_wall: bool)
    requires
        n.width == m.width,
        n.height == m.height,
        0 <= x < m.width,
        0 <= y < m.height,
        east_wall ==> !m.east[y][x],
        !east_wall ==> !m.south[y][x],
        forall|i: int, j: int|
            0 <= i < m.width && 0 <= j < m.height ==> #[trigger] n.east[j][i] == (m.east[j][i] || (
            east_wall && i == x && j == y)),
        forall|i: int, j: int|
            0 <= i < m.width && 0 <= j < m.height ==> #[trigger] n.south[j][i] == (m.south[j][i] || (
            !east_wall && i == x && j == y)),
    ensures
        closed_walls(n) + 1 == closed_walls(m),
{
    let w = m.width as int;
    let h = m.height as int;
    if east_wall {
        lemma_count_flip(|i: int, j: int| !m.east[j][i], |i: int, j: int| !n.east[j][i], w, h, x, y);
        lemma_count_agree(|i: int, j: int| !m.south[j][i], |i: int, j: int| !n.south[j][i], w, h);
    } else {
        lemma_count_agree(|i: int, j: int| !m.east[j][i], |i: int, j: int| !n.east[j][i], w, h);
        lemma_count_flip(|i: int, j: int| !m.south[j][i], |i: int, j: int| !n.south[j][i], w, h, x, y);
    }
}

/// Opening one more wall, beside a cell that cannot be reached in `m`, keeps
/// every wall of `s0` open and keeps each wall opened since `s0` beside a cell
/// that cannot be reached in `s0`.
proof fn lemma_open_keeps_history(s0: MazeModel, m: MazeModel, n: MazeModel, x: int, y: int, east_wall: bool)
    requires
        s0.width == m.width,
        s0.height == m.height,
        n.width == m.width,
        n.height == m.height,
        s0.walls_within(m),
        s0.opened_only_toward_unreachable(m),
        0 <= x < m.width,
        0 <= y < m.height,
        forall|i: int, j: int|
            0 <= i < m.width && 0 <= j < m.height ==> #[trigger] n.east[j][i] == (m.east[j][i] || (
            east_wall && i == x && j == y)),
        forall|i: int, j: int|
            0 <= i < m.width && 0 <= j < m.height ==> #[trigger] n.south[j][i] == (m.south[j][i] || (
            !east_wall && i == x && j == y)),
        east_wall ==> !m.reachable(Location { x: x as usize, y: y as usize }) || !m.reachable(
            Location { x: (x + 1) as usize, y: y as usize },
        ),
        !east_wall ==> !m.reachable(Location { x: x as usize, y: y as usize }) || !m.reachable(
            Location { x: x as usize, y: (y + 1) as usize },
        ),
    ensures
        m.walls_within(n),
        s0.walls_within(n),
        s0.opened_only_toward_unreachable(n),
{
    let a = Location { x: x as usize, y: y as usize };
    let b = if east_wall {
        Location { x: (x + 1) as usize, y: y as usize }
    } else {
        Location { x: x as usize, y: (y + 1) as usize }
    };
    if s0.reachable(a) {
        lemma_reachable_monotone(s0, m, a);
    }
    if s0.reachable(b) {
        lemma_reachable_monotone(s0, m, b);
    }
    assert forall|i: int, j: int|
        0 <= i < s0.width && 0 <= j < s0.height && #[trigger] n.east_open(i, j) && !s0.east_open(i, j) implies
        !s0.reachable(Location { x: i as usize, y: j as usize }) || !s0.reachable(
            Location { x: (i + 1) as usize, y: j as usize },
        ) by {
        if !m.east_open(i, j) {
            assert(east_wall && i == x && j == y);
        }
    }
    assert forall|i: int, j: int|
        0 <= i < s0.width && 0 <= j < s0.height && #[trigger] n.south_open(i, j) && !s0.south_open(i, j) implies
        !s0.reachable(Location { x: i as usize, y: j as usize }) || !s0.reachable(
            Location { x: i as usize, y: (j + 1) as usize },
        ) by {
        if !m.south_open(i, j) {
            assert(!east_wall && i == x && j == y);
        }
    }
}

/// The maze obtained by opening one wall of `m` is `with_wall_opened`.
proof fn lemma_opened_model(m: MazeModel, n: MazeModel, x: int, y: int, east_wall: bool)
    requires
        m.shaped(),
        n.shaped(),
        n.width == m.width,
        n.height == m.height,
        0 <= x < m.width,
        0 <= y < m.height,
        forall|i: int, j: int|
            0 <= i < m.width && 0 <= j < m.height ==> #[trigger] n.east[j][i] == (m.east[j][i] || (
            east_wall && i == x && j == y)),
        forall|i: int, j: int|
            0 <= i < m.width && 0 <= j < m.height ==> #[trigger] n.south[j][i] == (m.south[j][i] || (
            !east_wall && i == x && j == y)),
    ensures
        n == with_wall_opened(m, x, y, east_wall),
{
    let o = with_wall_opened(m, x, y, east_wall);
    assert forall|j: int| 0 <= j < m.height implies #[trigger] n.east[j] =~= o.east[j] by {
        assert forall|i: int| 0 <= i < m.width implies n.east[j][i] == o.east[j][i] by {
            assert(n.east[j][i] == (m.east[j][i] || (east_wall && i == x && j == y)));
        }
    }
    assert forall|j: int| 0 <= j < m.height implies #[trigger] n.south[j] =~= o.south[j] by {
        assert forall|i: int| 0 <= i < m.width implies n.south[j][i] == o.south[j][i] by {
            assert(n.south[j][i] == (m.south[j][i] || (!east_wall && i == x && j == y)));
        }
    }
    assert(n.east =~= o.east);
    assert(n.south =~= o.south);
}

/// Once opened walls make an unreachable cell reachable, fewer cells are unreachable.
proof fn lemma_newly_reachable(m: MazeModel, n: MazeModel, l: Location)
    requires
        m.width == n.width,
        m.height == n.height,
        m.walls_within(n),
        m.in_bounds(l),
        !m.reachable(l),
        n.reachable(l),
    ensures
        unreachable_cells(n) + 1 <= unreachable_cells(m),
{
    let w = m.width as int;
    let h = m.height as int;
    let p = |x: int, y: int| !m.reachable(Location { x: x as usize, y: y as usize });
    let q = |x: int, y: int| !n.reachable(Location { x: x as usize, y: y as usize });
    let r = |x: int, y: int| !m.reachable(Location { x: x as usize, y: y as usize }) && !(x == l.x && y == l.y);
    assert(Location { x: (l.x as int) as usize, y: (l.y as int) as usize } == l);
    lemma_count_flip(p, r, w, h, l.x as int, l.y as int);
    assert forall|x: int, y: int| 0 <= x < w && 0 <= y < h && #[trigger] q(x, y) implies r(x, y) by {
        let c = Location { x: x as usize, y: y as usize };
        if m.reachable(c) {
            lemma_reachable_monotone(m, n, c);
        }
    }
    lemma_count_mono(q, r, w, h);
}

/// Opens the east wall (or the south wall) of cell `(x, y)` of `cells`.
fn open_wall(cells: &mut Vec<Vec<Cell>>, x: usize, y: usize, east_wall: bool)
    requires
        y < old(cells)@.len(),
        x < old(cells)@[y as int]@.len(),
    ensures
        final(cells)@.len() == old(cells)@.len(),
        forall|j: int| 0 <= j < old(cells)@.len() ==> (#[trigger] final(cells)@[j])@.len() == old(cells)@[j]@.len(),
        forall|i: int, j: int|
            0 <= j < old(cells)@.len() && 0 <= i < old(cells)@[j]@.len() ==> {
                let c = #[trigger] final(cells)@[j]@[i];
                let o = old(cells)@[j]@[i];
                &&& c.location == o.location
                &&& c.maze_size == o.maze_size
                &&& c.can_exit_east == (o.can_exit_east || (east_wall && i == x && j == y))
                &&& c.can_exit_south == (o.can_exit_south || (!east_wall && i == x && j == y))
            },
{
    if east_wall {
        cells[y][x].can_exit_east = true;
    } else {
        cells[y][x].can_exit_south = true;
    }
}

} // verus!
