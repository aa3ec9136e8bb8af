//! Finding a route from the start to the finish by depth-first search.
use vstd::prelude::*;

use super::{all_directions, direction_rank, Maze, Path};
use crate::grid_count::{count_in_grid, lemma_count_flip};
use crate::topology::{
    lemma_direction_step, lemma_simple_route, lemma_step_direction, Direction, Location, MazeModel,
};

verus! {

/// The rank of the move from `a` to the adjacent cell `b` in the order in
/// which the maze looks around a cell: north, east, south, west.
pub open spec fn step_rank(a: Location, b: Location) -> int {
    if b.x == a.x && b.y + 1 == a.y {
        0
    } else if b.y == a.y && b.x == a.x + 1 {
        1
    } else if b.x == a.x && b.y == a.y + 1 {
        2
    } else {
        3
    }
}

/// The search tries the neighbours of a cell in the order north, east, south, west.
pub proof fn lemma_search_order(a: Location)
    requires
        0 < a.x < usize::MAX,
        0 < a.y < usize::MAX,
    ensures
        step_rank(a, Location { x: a.x, y: (a.y - 1) as usize }) < step_rank(a, Location { x: (a.x + 1) as usize, y: a.y }),
        step_rank(a, Location { x: (a.x + 1) as usize, y: a.y }) < step_rank(a, Location { x: a.x, y: (a.y + 1) as usize }),
        step_rank(a, Location { x: a.x, y: (a.y + 1) as usize }) < step_rank(a, Location { x: (a.x - 1) as usize, y: a.y }),
{
}

/// The neighbours of `a` in the order north, east, south, west.
pub open spec fn neighbours_in_order(a: Location) -> Seq<Location> {
    seq![
        Location { x: a.x, y: (a.y - 1) as usize },
        Location { x: (a.x + 1) as usize, y: a.y },
        Location { x: a.x, y: (a.y + 1) as usize },
        Location { x: (a.x - 1) as usize, y: a.y },
    ]
}

/// Of two routes that agree up to a cell and then part, the search meets
/// first the one that turns north rather than east, south or west, east
/// rather than south or west, and south rather than west; and not the other.
pub proof fn lemma_explored_first(q: Seq<Location>, r: Seq<Location>, i: int, j: int, k: int)
    requires
        0 <= i,
        i + 1 < q.len(),
        i + 1 < r.len(),
        q.take(i + 1) == r.take(i + 1),
        0 < q[i].x < usize::MAX,
        0 < q[i].y < usize::MAX,
        0 <= j < k < 4,
        q[i + 1] == neighbours_in_order(q[i])[j],
        r[i + 1] == neighbours_in_order(q[i])[k],
    ensures
        explored_before(q, r),
        !explored_before(r, q),
{
    let a = q[i];
    let ns = neighbours_in_order(a);
    assert(forall|t: int| 0 <= t < 4 ==> step_rank(a, #[trigger] ns[t]) == t);
    assert(part_earlier(q, r, i));
    assert(q.take(i + 1)[i] == q[i]);
    assert(r.take(i + 1)[i] == r[i]);
    assert(r[i] == q[i]);
    assert forall|t: int| !#[trigger] part_earlier(r, q, t) by {
        if part_earlier(r, q, t) {
            if t > i {
                assert(r.take(t + 1)[i + 1] == r[i + 1]);
                assert(q.take(t + 1)[i + 1] == q[i + 1]);
                assert(ns[j] != ns[k]);
            } else if t < i {
                assert(r.take(t + 1)[t] == r[t]);
                assert(q.take(t + 1)[t] == q[t]);
                assert(r.take(i + 1)[t + 1] == r[t + 1]);
                assert(q.take(i + 1)[t + 1] == q[t + 1]);
            } else {
                assert(step_rank(r[i], r[i + 1]) == k);
                assert(step_rank(r[i], q[i + 1]) == j);
            }
        }
    }
}

/// A depth-first search that tries north, east, south and west in turn meets
/// route `q` before route `r`: where the two routes part, `q` turns to the
/// earlier direction.
pub open spec fn explored_before(q: Seq<Location>, r: Seq<Location>) -> bool {
    exists|i: int| #[trigger] part_earlier(q, r, i)
}

/// `q` and `r` agree up to their `i`-th cell, and from there `q` turns to an
/// earlier direction than `r`.
pub open spec fn part_earlier(q: Seq<Location>, r: Seq<Location>, i: int) -> bool {
    &&& 0 <= i
    &&& i + 1 < q.len()
    &&& i + 1 < r.len()
    &&& q.take(i + 1) == r.take(i + 1)
    &&& step_rank(q[i], q[i + 1]) < step_rank(q[i], r[i + 1])
}


/// `q` is a route from `cur` to the finish that visits no cell twice and no cell of `p`.
pub open spec fn escape_route(m: MazeModel, q: Seq<Location>, cur: Location, p: Seq<Location>) -> bool {
    &&& m.route(q, cur, m.finish())
    &&& q.no_duplicates()
    &&& forall|i: int| 0 <= i < q.len() ==> !p.contains(#[trigger] q[i])
}

/// The number of cells of the `w` by `h` grid that `p` does not visit.
spec fn unvisited(p: Seq<Location>, w: int, h: int) -> nat {
    count_in_grid(|x: int, y: int| !p.contains(Location { x: x as usize, y: y as usize }), w, h)
}

/// An escape route from `cur` other than the trivial one continues with an
/// escape route from its second cell that also avoids `cur`.
proof fn lemma_escape_rest(m: MazeModel, q: Seq<Location>, cur: Location, before: Seq<Location>, here: Seq<Location>)
    requires
        escape_route(m, q, cur, before),
        here == before.push(cur),
        cur != m.finish(),
    ensures
        q.len() >= 2,
        m.step(cur, q[1]),
        !here.contains(q[1]),
        escape_route(m, q.drop_first(), q[1], here),
{
    if q.len() < 2 {
        assert(q[0] == q[q.len() - 1]);
    }
    assert(m.walk_step(q, 0));
    let rest = q.drop_first();
    assert forall|t: int| 0 <= t < rest.len() - 1 implies #[trigger] m.walk_step(rest, t) by {
        assert(m.walk_step(q, t + 1));
    }
    assert forall|t: int| 0 <= t < rest.len() implies !here.contains(#[trigger] rest[t]) by {
        assert(rest[t] == q[t + 1]);
        assert(!before.contains(q[t + 1]));
        assert(q[t + 1] != q[0]);
        if here.contains(rest[t]) {
            let u = choose|u: int| 0 <= u < here.len() && here[u] == rest[t];
            if u < before.len() {
                assert(before[u] == rest[t]);
            }
        }
    }
}

/// The route found through the `j`-th neighbour, tried in order, is the first
/// escape route from `cur` that a depth-first search meets.
proof fn lemma_first_route_least(
    m: MazeModel,
    cur: Location,
    before: Seq<Location>,
    here: Seq<Location>,
    valid: Seq<Location>,
    j: int,
    tail: Seq<Location>,
    q: Seq<Location>,
)
    requires
        here == before.push(cur),
        cur != m.finish(),
        0 <= j < valid.len(),
        q == seq![cur] + tail,
        forall|n: Location| #[trigger] m.step(cur, n) && !here.contains(n) ==> valid.contains(n),
        forall|a: int, b: int| 0 <= a < b < valid.len() ==> step_rank(cur, #[trigger] valid[a]) < step_rank(cur, #[trigger] valid[b]),
        forall|k: int, r: Seq<Location>| 0 <= k < j ==> !#[trigger] escape_route(m, r, #[trigger] valid[k], here),
        escape_route(m, tail, valid[j], here),
        forall|r: Seq<Location>| #[trigger] escape_route(m, r, valid[j], here) ==> r == tail || explored_before(tail, r),
    ensures
        forall|r: Seq<Location>| #[trigger] escape_route(m, r, cur, before) ==> r == q || explored_before(q, r),
{
    assert forall|r: Seq<Location>| #[trigger] escape_route(m, r, cur, before) implies r == q || explored_before(q, r) by {
        lemma_escape_rest(m, r, cur, before, here);
        let rest = r.drop_first();
        let n = r[1];
        assert(valid.contains(n));
        let k = choose|k: int| 0 <= k < valid.len() && valid[k] == n;
        if k < j {
            assert(!escape_route(m, rest, valid[k], here));
        } else if k == j {
            if rest == tail {
                assert(r =~= q);
            } else {
                assert(explored_before(tail, rest));
                let i = choose|i: int| #[trigger] part_earlier(tail, rest, i);
                assert(q.take(i + 2) =~= seq![cur] + tail.take(i + 1));
                assert(r.take(i + 2) =~= seq![cur] + rest.take(i + 1));
                assert(part_earlier(q, r, i + 1));
            }
        } else {
            assert(tail[0] == valid[j]);
            assert(q.take(1) =~= r.take(1));
            assert(part_earlier(q, r, 0));
        }
    }
}

/// Whether `path` visits `location`.
fn path_contains(path: &Vec<Location>, location: Location) -> (b: bool)
    ensures
        b == path@.contains(location),
{
    let mut i: usize = 0;
    while i < path.len()
        invariant
            i <= path@.len(),
            forall|k: int| 0 <= k < i ==> path@[k] != location,
        decreases path.len() - i,
    {
        if path[i] == location {
            return true;
        }
        i = i + 1;
    }
    false
}

impl Maze {
    /// The cells one can move to from `cur`, looking north, east, south and west.
    fn get_valid_moves(&self, cur: Location) -> (moves: Vec<Location>)
        requires
            self@.in_bounds(cur),
        ensures
            forall|i: int| 0 <= i < moves@.len() ==> self@.step(cur, #[trigger] moves@[i]),
            forall|n: Location| #[trigger] self@.step(cur, n) ==> moves@.contains(n),
            forall|a: int, b: int|
                0 <= a < b < moves@.len() ==> step_rank(cur, #[trigger] moves@[a]) < step_rank(cur, #[trigger] moves@[b]),
    {
        proof {
            use_type_invariant(self);
            self.lemma_model();
        }
        let ghost m = self@;
        let dirs = all_directions();
        let cell = &self.cells[cur.y][cur.x];
        let mut moves: Vec<Location> = Vec::new();
        let mut i: usize = 0;
        while i < 4
            invariant
                m == self@,
                m.well_formed(),
                m.in_bounds(cur),
                *cell == self.cells@[cur.y as int]@[cur.x as int],
                cell.location == cur,
                forall|k: int| 0 <= k < 4 ==> direction_rank(#[trigger] dirs@[k]) == k,
                i <= 4,
                forall|k: int| 0 <= k < moves@.len() ==> m.step(cur, #[trigger] moves@[k]),
                forall|d: Direction|
                    direction_rank(d) < i && m.open_toward(cur, d) && (#[trigger] m.neighbor(cur, d)) is Some
                        ==> moves@.contains(m.neighbor(cur, d)->0),
                forall|k: int| 0 <= k < moves@.len() ==> step_rank(cur, #[trigger] moves@[k]) < i,
                forall|a: int, b: int|
                    0 <= a < b < moves@.len() ==> step_rank(cur, #[trigger] moves@[a]) < step_rank(cur, #[trigger] moves@[b]),
            decreases 4 - i,
        {
            let dir = dirs[i];
            proof {
                lemma_direction_step(m, cur, dir);
            }
            let ghost old_moves = moves@;
            if self.can_move(cell, &dir) {
                if let Some(next) = self.get_location(&cur, &dir) {
                    moves.push(next);
                    proof {
                        broadcast use vstd::seq_lib::group_seq_properties;

                        assert(moves@[moves@.len() - 1] == next);
                        assert(moves@ == old_moves.push(next));
                        assert(step_rank(cur, next) == i);
                    }
                }
            }
            proof {
                broadcast use vstd::seq_lib::group_seq_properties;

                assert forall|d: Direction|
                    direction_rank(d) < i + 1 && m.open_toward(cur, d) && (#[trigger] m.neighbor(cur, d)) is Some
                        implies moves@.contains(m.neighbor(cur, d)->0) by {
                    if direction_rank(d) == i {
                        assert(d == dir);
                    } else {
                        assert(old_moves.contains(m.neighbor(cur, d)->0));
                    }
                }
            }
            i = i + 1;
        }
        proof {
            assert forall|n: Location| #[trigger] m.step(cur, n) implies moves@.contains(n) by {
                let d = lemma_step_direction(m, cur, n);
            }
        }
        moves
    }

    /// Extends `path_to_here` with `cur_cell` and, depth first, with a route
    /// from there to the finish that avoids the cells already on the path.
    /// On success the path ends at the finish; otherwise it is left as it was.
    fn solve_helper(&self, cur_cell: Location, path_to_here: &mut Path) -> (found: bool)
        requires
            self@.in_bounds(cur_cell),
            !old(path_to_here)@.contains(cur_cell),
        ensures
            found ==> {
                &&& final(path_to_here)@.len() > old(path_to_here)@.len()
                &&& final(path_to_here)@.subrange(0, old(path_to_here)@.len() as int) == old(path_to_here)@
                &&& escape_route(
                    self@,
                    final(path_to_here)@.subrange(old(path_to_here)@.len() as int, final(path_to_here)@.len() as int),
                    cur_cell,
                    old(path_to_here)@,
                )
                &&& forall|r: Seq<Location>| #[trigger]
                    escape_route(self@, r, cur_cell, old(path_to_here)@) ==> r == final(path_to_here)@.subrange(
                        old(path_to_here)@.len() as int,
                        final(path_to_here)@.len() as int,
                    ) || explored_before(
                        final(path_to_here)@.subrange(
                            old(path_to_here)@.len() as int,
                            final(path_to_here)@.len() as int,
                        ),
                        r,
                    )
            },
            !found ==> final(path_to_here)@ == old(path_to_here)@ && forall|q: Seq<Location>|
                !#[trigger] escape_route(self@, q, cur_cell, old(path_to_here)@),
        decreases unvisited(old(path_to_here)@, self@.width as int, self@.height as int),
    {
        let ghost m = self@;
        let ghost before = path_to_here@;
        path_to_here.push(cur_cell);
        let ghost here = path_to_here@;
        if self.is_finish_location(cur_cell) {
            proof {
                let q = seq![cur_cell];
                assert(path_to_here@.subrange(before.len() as int, here.len() as int) =~= q);
                assert(path_to_here@.subrange(0, before.len() as int) =~= before);
                assert(m.route(q, cur_cell, m.finish()));
                assert forall|r: Seq<Location>| #[trigger] escape_route(m, r, cur_cell, before) implies r == q
                    || explored_before(q, r) by {
                    if r.len() > 1 {
                        assert(r[0] == r[r.len() - 1]);
                    }
                    assert(r =~= q);
                }
            }
            return true;
        }
        let moves = self.get_valid_moves(cur_cell);
        let mut valid_moves: Vec<Location> = Vec::new();
        let mut i: usize = 0;
        while i < moves.len()
            invariant
                path_to_here@ == here,
                i <= moves@.len(),
                forall|k: int| 0 <= k < valid_moves@.len() ==> m.step(cur_cell, #[trigger] valid_moves@[k]) && !here.contains(valid_moves@[k]),
                forall|k: int| 0 <= k < moves@.len() ==> m.step(cur_cell, #[trigger] moves@[k]),
                forall|k: int| 0 <= k < i && !here.contains(#[trigger] moves@[k]) ==> valid_moves@.contains(moves@[k]),
                forall|a: int, b: int|
                    0 <= a < b < moves@.len() ==> step_rank(cur_cell, #[trigger] moves@[a]) < step_rank(cur_cell, #[trigger] moves@[b]),
                forall|a: int, b: int|
                    0 <= a < b < valid_moves@.len() ==> step_rank(cur_cell, #[trigger] valid_moves@[a]) < step_rank(
                        cur_cell,
                        #[trigger] valid_moves@[b],
                    ),
                forall|k: int, t: int|
                    0 <= k < valid_moves@.len() && i <= t < moves@.len() ==> step_rank(cur_cell, #[trigger] valid_moves@[k])
                        < step_rank(cur_cell, #[trigger] moves@[t]),
            decreases moves.len() - i,
        {
            let next = moves[i];
            let ghost old_valid = valid_moves@;
            if !path_contains(path_to_here, next) {
                valid_moves.push(next);
                proof {
                    broadcast use vstd::seq_lib::group_seq_properties;

                    assert(valid_moves@[valid_moves@.len() - 1] == next);
                    assert(valid_moves@ == old_valid.push(next));
                }
            }
            proof {
                broadcast use vstd::seq_lib::group_seq_properties;

                assert forall|k: int| 0 <= k < i + 1 && !here.contains(#[trigger] moves@[k]) implies valid_moves@.contains(moves@[k]) by {
                    if k < i {
                        assert(old_valid.contains(moves@[k]));
                    }
                }
            }
            i = i + 1;
        }
        proof {
            let w = m.width as int;
            let h = m.height as int;
            assert(here[here.len() - 1] == cur_cell);
            assert(Location { x: cur_cell.x as int as usize, y: cur_cell.y as int as usize } == cur_cell);
            assert forall|x: int, y: int|
                0 <= x < w && 0 <= y < h && !(x == cur_cell.x && y == cur_cell.y) implies
                #[trigger] here.contains(Location { x: x as usize, y: y as usize })
                    == before.contains(Location { x: x as usize, y: y as usize }) by {
                let l = Location { x: x as usize, y: y as usize };
                assert(l != cur_cell);
                if before.contains(l) {
                    let t = choose|t: int| 0 <= t < before.len() && before[t] == l;
                    assert(here[t] == l);
                }
                if here.contains(l) {
                    let t = choose|t: int| 0 <= t < here.len() && here[t] == l;
                    assert(t < before.len());
                    assert(before[t] == l);
                }
            }
            lemma_count_flip(
                |x: int, y: int| !before.contains(Location { x: x as usize, y: y as usize }),
                |x: int, y: int| !here.contains(Location { x: x as usize, y: y as usize }),
                w,
                h,
                cur_cell.x as int,
                cur_cell.y as int,
            );
        }
        let mut j: usize = 0;
        while j < valid_moves.len()
            invariant
                m == self@,
                before == old(path_to_here)@,
                path_to_here@ == here,
                here == before.push(cur_cell),
                !before.contains(cur_cell),
                unvisited(here, m.width as int, m.height as int) < unvisited(before, m.width as int, m.height as int),
                j <= valid_moves@.len(),
                forall|k: int| 0 <= k < valid_moves@.len() ==> m.step(cur_cell, #[trigger] valid_moves@[k]) && !here.contains(valid_moves@[k]),
                forall|k: int, q: Seq<Location>| 0 <= k < j ==> !#[trigger] escape_route(m, q, #[trigger] valid_moves@[k], here),
                forall|n: Location| #[trigger] m.step(cur_cell, n) && !here.contains(n) ==> valid_moves@.contains(n),
                forall|a: int, b: int|
                    0 <= a < b < valid_moves@.len() ==> step_rank(cur_cell, #[trigger] valid_moves@[a]) < step_rank(
                        cur_cell,
                        #[trigger] valid_moves@[b],
                    ),
                cur_cell != m.finish(),
            decreases valid_moves.len() - j,
        {
            let next = valid_moves[j];
            if self.solve_helper(next, path_to_here) {
                proof {
                    let fin = path_to_here@;
                    let tail = fin.subrange(here.len() as int, fin.len() as int);
                    let q = fin.subrange(before.len() as int, fin.len() as int);
                    assert(fin.subrange(0, here.len() as int) == here);
                    assert(q.len() == tail.len() + 1);
                    assert forall|k: int| 0 <= k < q.len() implies #[trigger] q[k] == (seq![cur_cell] + tail)[k] by {
                        if k == 0 {
                            assert(fin.subrange(0, here.len() as int)[before.len() as int] == here[before.len() as int]);
                        } else {
                            assert(q[k] == fin[before.len() + k]);
                            assert(tail[k - 1] == fin[here.len() + k - 1]);
                        }
                    }
                    assert(q =~= seq![cur_cell] + tail);
                    assert(fin.subrange(0, before.len() as int) =~= before) by {
                        assert forall|k: int| 0 <= k < before.len() implies fin[k] == before[k] by {
                            assert(fin.subrange(0, here.len() as int)[k] == here[k]);
                        }
                    }
                    assert(escape_route(m, tail, next, here));
                    assert forall|k: int| 0 <= k < q.len() - 1 implies #[trigger] m.walk_step(q, k) by {
                        if k > 0 {
                            assert(m.walk_step(tail, k - 1));
                        }
                    }
                    assert forall|k: int| 0 <= k < q.len() implies !before.contains(#[trigger] q[k]) by {
                        if k > 0 {
                            assert(q[k] == tail[k - 1]);
                            assert(!here.contains(tail[k - 1]));
                            if before.contains(tail[k - 1]) {
                                let t = choose|t: int| 0 <= t < before.len() && before[t] == tail[k - 1];
                                assert(here[t] == tail[k - 1]);
                            }
                        }
                    }
                    assert forall|a: int, b: int| 0 <= a < q.len() && 0 <= b < q.len() && a != b implies q[a] != q[b] by {
                        if a > 0 && b > 0 {
                            assert(q[a] == tail[a - 1]);
                            assert(q[b] == tail[b - 1]);
                        } else if a == 0 {
                            assert(q[b] == tail[b - 1]);
                            assert(!here.contains(tail[b - 1]));
                            assert(here[here.len() - 1] == cur_cell);
                        } else {
                            assert(q[a] == tail[a - 1]);
                            assert(!here.contains(tail[a - 1]));
                            assert(here[here.len() - 1] == cur_cell);
                        }
                    }
                    assert(escape_route(m, q, cur_cell, before));
                    lemma_first_route_least(m, cur_cell, before, here, valid_moves@, j as int, tail, q);
                }
                return true;
            }
            j = j + 1;
        }
        path_to_here.pop();
        proof {
            assert(path_to_here@ =~= before);
            assert forall|q: Seq<Location>| !#[trigger] escape_route(m, q, cur_cell, before) by {
                if escape_route(m, q, cur_cell, before) {
                    lemma_escape_rest(m, q, cur_cell, before, here);
                    let n = q[1];
                    assert(valid_moves@.contains(n));
                    let k = choose|k: int| 0 <= k < valid_moves@.len() && valid_moves@[k] == n;
                    assert(escape_route(m, q.drop_first(), valid_moves@[k], here));
                }
            }
        }
        false
    }

    /// A route from the start to the finish, if there is one. The route is the
    /// first found by a depth-first search that looks north, east, south and
    /// west in turn and never revisits a cell: of all routes that visit no cell
    /// twice, the one that turns to the earliest direction where they part.
    pub fn solve(&self) -> (r: Option<Path>)
        ensures
            match r {
                Some(p) => {
                    &&& self@.route(p@, self@.start(), self@.finish())
                    &&& p@.no_duplicates()
                    &&& forall|q: Seq<Location>|
                        #[trigger] self@.route(q, self@.start(), self@.finish()) && q.no_duplicates() ==> q == p@
                            || explored_before(p@, q)
                },
                None => !self@.reachable(self@.finish()),
            },
    {
        proof {
            use_type_invariant(self);
            self.lemma_model();
        }
        let start = Location { x: 0, y: 0 };
        let mut path: Path = Vec::new();
        if self.solve_helper(start, &mut path) {
            assert(path@.subrange(0, path@.len() as int) =~= path@);
            proof {
                assert forall|q: Seq<Location>|
                    #[trigger] self@.route(q, self@.start(), self@.finish()) && q.no_duplicates() implies q == path@
                        || explored_before(path@, q) by {
                    assert(escape_route(self@, q, start, Seq::empty()));
                }
            }
            Some(path)
        } else {
            proof {
                if self@.reachable(self@.finish()) {
                    let p = choose|p: Seq<Location>| #[trigger] self@.route(p, self@.start(), self@.finish());
                    lemma_simple_route(self@, p, self@.start(), self@.finish());
                    let q = choose|q: Seq<Location>| #[trigger] self@.route(q, self@.start(), self@.finish()) && q.no_duplicates();
                    assert(escape_route(self@, q, start, Seq::empty()));
                }
            }
            None
        }
    }
}

} // verus!
