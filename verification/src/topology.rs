//! The mathematical model of a maze: a grid of cells whose east and south walls
//! are open or closed, the moves that the open walls allow, and the cells that
//! can be reached from the start.
use vstd::prelude::*;

verus! {

/// A cell of the grid: column `x`, row `y`, counted from the top-left corner.
#[derive(Debug, Copy, Clone, PartialEq, Eq, Hash, Structural)]
pub struct Location {
    pub x: usize,
    pub y: usize,
}

/// The four ways out of a cell.
#[derive(Debug, Copy, Clone, PartialEq, Eq, Structural)]
pub enum Direction {
    North,
    East,
    South,
    West,
}

/// The topology of a maze: its size and, for each cell, whether the wall on its
/// east side and the wall on its south side are open (`east[y][x]`, `south[y][x]`).
pub struct MazeModel {
    pub width: nat,
    pub height: nat,
    pub east: Seq<Seq<bool>>,
    pub south: Seq<Seq<bool>>,
}

impl MazeModel {
    pub open spec fn in_bounds(self, l: Location) -> bool {
        l.x < self.width && l.y < self.height
    }

    pub open spec fn east_open(self, x: int, y: int) -> bool {
        self.east[y][x]
    }

    pub open spec fn south_open(self, x: int, y: int) -> bool {
        self.south[y][x]
    }

    /// The walls of the grid's right column and bottom row are closed.
    pub open spec fn boundaries_closed(self) -> bool {
        &&& forall|y: int| 0 <= y < self.height ==> !#[trigger] self.east[y][self.width - 1]
        &&& forall|x: int| 0 <= x < self.width ==> !#[trigger] self.south[self.height - 1][x]
    }

    /// Both wall tables have one row per maze row and one entry per maze column.
    pub open spec fn shaped(self) -> bool {
        &&& self.east.len() == self.height
        &&& self.south.len() == self.height
        &&& forall|y: int| 0 <= y < self.height ==> #[trigger] self.east[y].len() == self.width
        &&& forall|y: int| 0 <= y < self.height ==> #[trigger] self.south[y].len() == self.width
    }

    pub open spec fn well_formed(self) -> bool {
        &&& self.width >= 1
        &&& self.height >= 1
        &&& self.width <= usize::MAX
        &&& self.height <= usize::MAX
        &&& self.shaped()
        &&& self.boundaries_closed()
    }

    pub open spec fn start(self) -> Location {
        Location { x: 0, y: 0 }
    }

    pub open spec fn finish(self) -> Location {
        Location { x: (self.width - 1) as usize, y: (self.height - 1) as usize }
    }

    /// One move between two cardinally adjacent in-bounds cells through an open wall.
    pub open spec fn step(self, a: Location, b: Location) -> bool {
        &&& self.in_bounds(a)
        &&& self.in_bounds(b)
        &&& {
            ||| (a.x == b.x && a.y + 1 == b.y && self.south_open(a.x as int, a.y as int))
            ||| (a.x == b.x && b.y + 1 == a.y && self.south_open(b.x as int, b.y as int))
            ||| (a.y == b.y && a.x + 1 == b.x && self.east_open(a.x as int, a.y as int))
            ||| (a.y == b.y && b.x + 1 == a.x && self.east_open(b.x as int, b.y as int))
        }
    }

    /// The move from the `i`-th cell of `p` to the next one is allowed.
    pub open spec fn walk_step(self, p: Seq<Location>, i: int) -> bool {
        self.step(p[i], p[i + 1])
    }

    /// Every move along `p` is allowed.
    pub open spec fn is_walk(self, p: Seq<Location>) -> bool {
        forall|i: int| 0 <= i < p.len() - 1 ==> #[trigger] self.walk_step(p, i)
    }

    /// `p` is a walk from `a` to `b`.
    pub open spec fn route(self, p: Seq<Location>, a: Location, b: Location) -> bool {
        &&& p.len() > 0
        &&& p[0] == a
        &&& p.last() == b
        &&& self.is_walk(p)
    }

    /// `l` can be reached from the start by allowed moves.
    pub open spec fn reachable(self, l: Location) -> bool {
        exists|p: Seq<Location>| #[trigger] self.route(p, self.start(), l)
    }

    /// Every cell of the grid can be reached from the start.
    pub open spec fn fully_connected(self) -> bool {
        forall|l: Location| self.in_bounds(l) ==> #[trigger] self.reachable(l)
    }

    /// Every wall open in `self` is open in `other` too.
    pub open spec fn walls_within(self, other: MazeModel) -> bool {
        &&& forall|x: int, y: int|
            0 <= x < self.width && 0 <= y < self.height && #[trigger] self.east_open(x, y) ==> other.east_open(x, y)
        &&& forall|x: int, y: int|
            0 <= x < self.width && 0 <= y < self.height && #[trigger] self.south_open(x, y) ==> other.south_open(
                x,
                y,
            )
    }

    /// Each wall that is open in `other` but closed in `self` has, on at least
    /// one side, a cell that cannot be reached from the start in `self`.
    pub open spec fn opened_only_toward_unreachable(self, other: MazeModel) -> bool {
        &&& forall|x: int, y: int|
            0 <= x < self.width && 0 <= y < self.height && #[trigger] other.east_open(x, y) && !self.east_open(x, y)
                ==> !self.reachable(Location { x: x as usize, y: y as usize }) || !self.reachable(
                Location { x: (x + 1) as usize, y: y as usize },
            )
        &&& forall|x: int, y: int|
            0 <= x < self.width && 0 <= y < self.height && #[trigger] other.south_open(x, y) && !self.south_open(x, y)
                ==> !self.reachable(Location { x: x as usize, y: y as usize }) || !self.reachable(
                Location { x: x as usize, y: (y + 1) as usize },
            )
    }

    /// The cell next to `l` in direction `d`, if the grid has one there.
    pub open spec fn neighbor(self, l: Location, d: Direction) -> Option<Location> {
        match d {
            Direction::North => if l.y >= 1 {
                Some(Location { x: l.x, y: (l.y - 1) as usize })
            } else {
                None
            },
            Direction::East => if l.x + 1 < self.width {
                Some(Location { x: (l.x + 1) as usize, y: l.y })
            } else {
                None
            },
            Direction::South => if l.y + 1 < self.height {
                Some(Location { x: l.x, y: (l.y + 1) as usize })
            } else {
                None
            },
            Direction::West => if l.x >= 1 {
                Some(Location { x: (l.x - 1) as usize, y: l.y })
            } else {
                None
            },
        }
    }

    /// The wall of `l` in direction `d` is open (the north and west walls of a
    /// cell are the south and east walls of its neighbours).
    pub open spec fn open_toward(self, l: Location, d: Direction) -> bool {
        match d {
            Direction::North => match self.neighbor(l, Direction::North) {
                Some(n) => self.south_open(n.x as int, n.y as int),
                None => false,
            },
            Direction::East => self.east_open(l.x as int, l.y as int),
            Direction::South => self.south_open(l.x as int, l.y as int),
            Direction::West => match self.neighbor(l, Direction::West) {
                Some(n) => self.east_open(n.x as int, n.y as int),
                None => false,
            },
        }
    }
}

/// Moves are symmetric: if one can move from `a` to `b`, one can move back.
pub proof fn lemma_step_symmetric(m: MazeModel, a: Location, b: Location)
    ensures
        m.step(a, b) == m.step(b, a),
{
}

/// A move joins two in-bounds cells that are cardinally adjacent (one apart
/// along exactly one axis) through an open wall.
pub proof fn lemma_step_adjacent(m: MazeModel, a: Location, b: Location)
    ensures
        m.step(a, b) ==> {
            &&& m.in_bounds(a)
            &&& m.in_bounds(b)
            &&& (a.x == b.x && (a.y + 1 == b.y || b.y + 1 == a.y)) || (a.y == b.y && (a.x + 1 == b.x
                || b.x + 1 == a.x))
        },
        a == b ==> !m.step(a, b),
{
}

/// An open wall joins the two cells on either side of it, and a closed one
/// separates them: one can move from a cell to its eastern neighbour exactly
/// when its east wall is open, and to its southern neighbour exactly when its
/// south wall is open.
pub proof fn lemma_open_wall_step(m: MazeModel, a: Location)
    requires
        m.well_formed(),
        m.in_bounds(a),
    ensures
        a.x + 1 < m.width ==> (m.step(a, Location { x: (a.x + 1) as usize, y: a.y }) <==> m.east_open(
            a.x as int,
            a.y as int,
        )),
        a.y + 1 < m.height ==> (m.step(a, Location { x: a.x, y: (a.y + 1) as usize }) <==> m.south_open(
            a.x as int,
            a.y as int,
        )),
        a.x >= 1 ==> (m.step(a, Location { x: (a.x - 1) as usize, y: a.y }) <==> m.east_open(
            a.x - 1,
            a.y as int,
        )),
        a.y >= 1 ==> (m.step(a, Location { x: a.x, y: (a.y - 1) as usize }) <==> m.south_open(
            a.x as int,
            a.y - 1,
        )),
{
}

/// In a fully connected maze the finish can be reached from the start.
pub proof fn lemma_connected_reaches_finish(m: MazeModel)
    requires
        m.well_formed(),
        m.fully_connected(),
    ensures
        m.reachable(m.finish()),
{
    assert(m.in_bounds(m.finish()));
}

/// A move in direction `d` through an open wall is a step, and every step is such a move.
pub proof fn lemma_direction_step(m: MazeModel, a: Location, d: Direction)
    requires
        m.well_formed(),
        m.in_bounds(a),
    ensures
        m.open_toward(a, d) && m.neighbor(a, d) is Some ==> m.step(a, m.neighbor(a, d)->0),
        m.neighbor(a, d) is Some ==> m.in_bounds(m.neighbor(a, d)->0),
        m.open_toward(a, d) ==> m.neighbor(a, d) is Some,
{
    match d {
        Direction::East => {
            if a.x + 1 >= m.width {
                assert(!m.east[a.y as int][m.width - 1]);
            }
        },
        Direction::South => {
            if a.y + 1 >= m.height {
                assert(!m.south[m.height - 1][a.x as int]);
            }
        },
        _ => {},
    }
}

/// Every step leaves its cell in some direction whose wall is open.
pub proof fn lemma_step_direction(m: MazeModel, a: Location, b: Location) -> (d: Direction)
    requires
        m.step(a, b),
    ensures
        m.open_toward(a, d),
        m.neighbor(a, d) == Some(b),
{
    if a.x == b.x && a.y + 1 == b.y && m.south_open(a.x as int, a.y as int) {
        Direction::South
    } else if a.x == b.x && b.y + 1 == a.y && m.south_open(b.x as int, b.y as int) {
        Direction::North
    } else if a.y == b.y && a.x + 1 == b.x && m.east_open(a.x as int, a.y as int) {
        Direction::East
    } else {
        Direction::West
    }
}

/// The start cell is reachable.
pub proof fn lemma_start_reachable(m: MazeModel)
    ensures
        m.reachable(m.start()),
{
    let p = seq![m.start()];
    assert(m.route(p, m.start(), m.start()));
}

/// Extending a walk by one allowed move keeps it a walk.
pub proof fn lemma_route_push(m: MazeModel, p: Seq<Location>, a: Location, b: Location, c: Location)
    requires
        m.route(p, a, b),
        m.step(b, c),
    ensures
        m.route(p.push(c), a, c),
{
    let q = p.push(c);
    assert forall|i: int| 0 <= i < q.len() - 1 implies #[trigger] m.walk_step(q, i) by {
        if i < p.len() - 1 {
            assert(m.walk_step(p, i));
        }
    }
}

/// A reachable cell's neighbours through open walls are reachable.
pub proof fn lemma_reachable_step(m: MazeModel, a: Location, b: Location)
    requires
        m.reachable(a),
        m.step(a, b),
    ensures
        m.reachable(b),
{
    let p = choose|p: Seq<Location>| #[trigger] m.route(p, m.start(), a);
    lemma_route_push(m, p, m.start(), a, b);
    assert(m.route(p.push(b), m.start(), b));
}

/// A set of cells that holds the first cell of a walk and is closed under
/// moves holds every cell of the walk.
proof fn lemma_closed_holds_walk(m: MazeModel, s: spec_fn(Location) -> bool, p: Seq<Location>, n: int)
    requires
        m.is_walk(p),
        p.len() > 0,
        s(p[0]),
        forall|a: Location, b: Location| s(a) && #[trigger] m.step(a, b) ==> s(b),
        0 <= n < p.len(),
    ensures
        s(p[n]),
    decreases n,
{
    if n > 0 {
        lemma_closed_holds_walk(m, s, p, n - 1);
        assert(m.walk_step(p, n - 1));
    }
}

/// A set of cells that holds the start and is closed under moves holds every reachable cell.
pub proof fn lemma_closed_holds_reachable(m: MazeModel, s: spec_fn(Location) -> bool, l: Location)
    requires
        s(m.start()),
        forall|a: Location, b: Location| s(a) && #[trigger] m.step(a, b) ==> s(b),
        m.reachable(l),
    ensures
        s(l),
{
    let p = choose|p: Seq<Location>| #[trigger] m.route(p, m.start(), l);
    lemma_closed_holds_walk(m, s, p, p.len() - 1);
}

/// A walk with a repeated cell can be shortened; so every reachable pair of
/// cells is joined by a walk that visits no cell twice.
pub proof fn lemma_simple_route(m: MazeModel, p: Seq<Location>, a: Location, b: Location)
    requires
        m.route(p, a, b),
    ensures
        exists|q: Seq<Location>| #[trigger] m.route(q, a, b) && q.no_duplicates(),
    decreases p.len(),
{
    if p.no_duplicates() {
        assert(m.route(p, a, b) && p.no_duplicates());
    } else {
        let (i, j) = choose|i: int, j: int| 0 <= i < p.len() && 0 <= j < p.len() && i != j && p[i] == p[j];
        let (i, j) = if i < j { (i, j) } else { (j, i) };
        let q = p.subrange(0, i) + p.subrange(j, p.len() as int);
        assert(q.len() == p.len() - (j - i));
        assert forall|k: int| 0 <= k < q.len() implies #[trigger] q[k] == if k < i { p[k] } else { p[k + j - i] } by {}
        assert forall|k: int| 0 <= k < q.len() - 1 implies #[trigger] m.walk_step(q, k) by {
            if k < i - 1 {
                assert(m.walk_step(p, k));
            } else if k == i - 1 {
                assert(m.walk_step(p, k));
            } else {
                assert(m.walk_step(p, k + j - i));
            }
        }
        assert(q[0] == a);
        assert(q.last() == b);
        lemma_simple_route(m, q, a, b);
    }
}

/// Opening walls keeps every reachable cell reachable.
pub proof fn lemma_reachable_monotone(a: MazeModel, b: MazeModel, l: Location)
    requires
        a.width == b.width,
        a.height == b.height,
        a.walls_within(b),
        a.reachable(l),
    ensures
        b.reachable(l),
{
    let p = choose|p: Seq<Location>| #[trigger] a.route(p, a.start(), l);
    assert forall|i: int| 0 <= i < p.len() - 1 implies #[trigger] b.walk_step(p, i) by {
        assert(a.walk_step(p, i));
        let u = p[i];
        let v = p[i + 1];
        if u.x == v.x && u.y + 1 == v.y && a.south_open(u.x as int, u.y as int) {
            assert(b.south_open(u.x as int, u.y as int));
        } else if u.x == v.x && v.y + 1 == u.y && a.south_open(v.x as int, v.y as int) {
            assert(b.south_open(v.x as int, v.y as int));
        } else if u.y == v.y && u.x + 1 == v.x && a.east_open(u.x as int, u.y as int) {
            assert(b.east_open(u.x as int, u.y as int));
        } else {
            assert(b.east_open(v.x as int, v.y as int));
        }
    }
    assert(b.route(p, b.start(), l));
}

/// If some cell of the grid is not reachable, there is an unreachable cell next
/// to a reachable one.
pub proof fn lemma_frontier(m: MazeModel, l: Location)
    requires
        m.well_formed(),
        m.in_bounds(l),
        !m.reachable(l),
    ensures
        exists|u: Location, d: Direction|
            m.in_bounds(u) && !m.reachable(u) && #[trigger] m.neighbor(u, d) is Some
                && m.reachable(m.neighbor(u, d)->0),
    decreases l.x + l.y,
{
    lemma_start_reachable(m);
    if l.y > 0 {
        let n = Location { x: l.x, y: (l.y - 1) as usize };
        if m.reachable(n) {
            assert(m.neighbor(l, Direction::North) == Some(n));
        } else {
            lemma_frontier(m, n);
        }
    } else {
        let n = Location { x: (l.x - 1) as usize, y: 0 };
        if m.reachable(n) {
            assert(m.neighbor(l, Direction::West) == Some(n));
        } else {
            lemma_frontier(m, n);
        }
    }
}

} // verus!
