//! Which cells can be reached from the start: a flood fill over the open walls.
use vstd::prelude::*;

use super::{all_directions, direction_rank, Maze};
use crate::grid_count::{count_in_grid, lemma_count_flip};
use crate::topology::{
    lemma_closed_holds_reachable, lemma_direction_step, lemma_reachable_step, lemma_start_reachable,
    lemma_step_direction, Direction, Location,
};

verus! {

/// `g` has `h` rows of `w` entries.
pub(crate) open spec fn grid_shape(g: Seq<Vec<bool>>, w: int, h: int) -> bool {
    &&& g.len() == h
    &&& forall|y: int| 0 <= y < h ==> (#[trigger] g[y])@.len() == w
}

/// The entry of `g` for cell `l`.
pub(crate) open spec fn cell_of(g: Seq<Vec<bool>>, l: Location) -> bool {
    g[l.y as int]@[l.x as int]
}

/// The number of cells of a `w` by `h` grid whose entry in `g` is false.
spec fn unmarked(g: Seq<Vec<bool>>, w: int, h: int) -> nat {
    count_in_grid(|x: int, y: int| !g[y]@[x], w, h)
}

/// A `w` by `h` grid of `false`.
fn unmarked_grid(w: usize, h: usize) -> (g: Vec<Vec<bool>>)
    ensures
        grid_shape(g@, w as int, h as int),
        forall|x: int, y: int| 0 <= x < w && 0 <= y < h ==> !#[trigger] g@[y]@[x],
{
    let mut g: Vec<Vec<bool>> = Vec::new();
    for y in 0..h
        invariant
            g@.len() == y,
            forall|j: int| 0 <= j < y ==> (#[trigger] g@[j])@.len() == w,
            forall|x: int, j: int| 0 <= x < w && 0 <= j < y ==> !#[trigger] g@[j]@[x],
    {
        let mut row: Vec<bool> = Vec::new();
        for x in 0..w
            invariant
                row@.len() == x,
                forall|i: int| 0 <= i < x ==> !#[trigger] row@[i],
        {
            row.push(false);
        }
        g.push(row);
    }
    g
}

/// Marks cell `(x, y)` of `g`.
fn mark(g: &mut Vec<Vec<bool>>, x: usize, y: usize)
    requires
        y < old(g)@.len(),
        x < old(g)@[y as int]@.len(),
    ensures
        final(g)@.len() == old(g)@.len(),
        forall|j: int| 0 <= j < old(g)@.len() ==> (#[trigger] final(g)@[j])@.len() == old(g)@[j]@.len(),
        forall|i: int, j: int|
            0 <= j < old(g)@.len() && 0 <= i < old(g)@[j]@.len() ==> #[trigger] final(g)@[j]@[i] == if i
                == x && j == y {
                true
            } else {
                old(g)@[j]@[i]
            },
{
    g[y][x] = true;
}

/// Whether every entry of the `w` by `h` grid `g` is true.
pub(crate) fn all_marked(g: &Vec<Vec<bool>>, w: usize, h: usize) -> (b: bool)
    requires
        grid_shape(g@, w as int, h as int),
    ensures
        b == forall|l: Location| l.x < w && l.y < h ==> #[trigger] cell_of(g@, l),
{
    let mut y: usize = 0;
    while y < h
        invariant
            grid_shape(g@, w as int, h as int),
            y <= h,
            forall|l: Location| l.x < w && l.y < y ==> #[trigger] cell_of(g@, l),
        decreases h - y,
    {
        let mut x: usize = 0;
        while x < w
            invariant
                grid_shape(g@, w as int, h as int),
                y < h,
                x <= w,
                forall|l: Location| l.x < w && (l.y < y || (l.y == y && l.x < x)) ==> #[trigger] cell_of(g@, l),
            decreases w - x,
        {
            if !g[y][x] {
                assert(!cell_of(g@, Location { x, y }));
                return false;
            }
            x = x + 1;
        }
        y = y + 1;
    }
    true
}


impl Maze {
    /// Which cells can be reached from the start: a `height` by `width` table,
    /// found by a depth-first flood fill from the start cell.
    pub(crate) fn generate_visitable_map(&self) -> (visited: Vec<Vec<bool>>)
        ensures
            grid_shape(visited@, self@.width as int, self@.height as int),
            forall|l: Location| #[trigger]
                self@.in_bounds(l) ==> (cell_of(visited@, l) <==> self@.reachable(l)),
    {
        proof {
            use_type_invariant(self);
            self.lemma_model();
            lemma_start_reachable(self@);
        }
        let ghost m = self@;
        let w = self.size.width;
        let h = self.size.height;
        let mut visited = unmarked_grid(w, h);
        let dirs = all_directions();
        mark(&mut visited, 0, 0);
        let mut stack: Vec<Location> = Vec::new();
        stack.push(Location { x: 0, y: 0 });
        proof {
            assert forall|a: Location, b: Location|
                m.in_bounds(a) && cell_of(visited@, a) && !stack@.contains(a) && #[trigger] m.step(
                    a,
                    b,
                ) implies cell_of(visited@, b) by {
                assert(stack@[0] == m.start());
            }
        }
        while stack.len() > 0
            invariant
                m == self@,
                m.well_formed(),
                w == m.width,
                h == m.height,
                forall|i: int| 0 <= i < 4 ==> direction_rank(#[trigger] dirs@[i]) == i,
                grid_shape(visited@, w as int, h as int),
                cell_of(visited@, m.start()),
                forall|l: Location| m.in_bounds(l) && #[trigger] cell_of(visited@, l) ==> m.reachable(l),
                forall|i: int|
                    0 <= i < stack@.len() ==> m.in_bounds(#[trigger] stack@[i]) && cell_of(
                        visited@,
                        stack@[i],
                    ),
                forall|a: Location, b: Location|
                    m.in_bounds(a) && cell_of(visited@, a) && !stack@.contains(a) && #[trigger] m.step(
                        a,
                        b,
                    ) ==> cell_of(visited@, b),
            decreases unmarked(visited@, w as int, h as int) * 2 + stack@.len(),
        {
            let ghost measure0 = unmarked(visited@, w as int, h as int) * 2 + stack@.len();
            let ghost full = stack@;
            let ghost prefix = stack@.drop_last();
            let cur = stack.pop().unwrap();
            proof {
                use_type_invariant(self);
                self.lemma_model();
            }
            assert(stack@ == prefix);
            assert(full == prefix.push(cur));
            let cell = &self.cells[cur.y][cur.x];
            let mut i: usize = 0;
            while i < 4
                invariant
                    m == self@,
                    m.well_formed(),
                    w == m.width,
                    h == m.height,
                    0 <= i <= 4,
                    forall|k: int| 0 <= k < 4 ==> direction_rank(#[trigger] dirs@[k]) == k,
                    m.in_bounds(cur),
                    cell_of(visited@, cur),
                    *cell == self.cells@[cur.y as int]@[cur.x as int],
                    cell.location == cur,
                    grid_shape(visited@, w as int, h as int),
                    cell_of(visited@, m.start()),
                    forall|l: Location| m.in_bounds(l) && #[trigger] cell_of(visited@, l) ==> m.reachable(l),
                    forall|k: int|
                        0 <= k < stack@.len() ==> m.in_bounds(#[trigger] stack@[k]) && cell_of(
                            visited@,
                            stack@[k],
                        ),
                    stack@.len() >= prefix.len(),
                    forall|k: int| 0 <= k < prefix.len() ==> #[trigger] stack@[k] == prefix[k],
                    forall|a: Location, b: Location|
                        m.in_bounds(a) && cell_of(visited@, a) && !full.contains(a) && !stack@.contains(
                            a,
                        ) && #[trigger] m.step(a, b) ==> cell_of(visited@, b),
                    forall|d: Direction|
                        direction_rank(d) < i && m.open_toward(cur, d) && (#[trigger] m.neighbor(
                            cur,
                            d,
                        )) is Some ==> cell_of(visited@, m.neighbor(cur, d)->0),
                    unmarked(visited@, w as int, h as int) * 2 + stack@.len() < measure0,
                decreases 4 - i,
            {
                let dir = dirs[i];
                if self.can_move(cell, &dir) {
                    if let Some(next) = self.get_location(&cur, &dir) {
                        proof {
                            lemma_direction_step(m, cur, dir);
                        }
                        if !visited[next.y][next.x] {
                            let ghost before = visited@;
                            let ghost stack_before = stack@;
                            mark(&mut visited, next.x, next.y);
                            proof {
                                lemma_reachable_step(m, cur, next);
                                assert forall|l: Location|
                                    m.in_bounds(l) && #[trigger] cell_of(visited@, l) implies m.reachable(
                                    l,
                                ) by {
                                    if l != next {
                                        assert(cell_of(before, l));
                                    }
                                }
                                lemma_count_flip(
                                    |x: int, y: int| !before[y]@[x],
                                    |x: int, y: int| !visited@[y]@[x],
                                    w as int,
                                    h as int,
                                    next.x as int,
                                    next.y as int,
                                );
                            }
                            stack.push(next);
                            proof {
                                assert forall|a: Location, b: Location|
                                    m.in_bounds(a) && cell_of(visited@, a) && !full.contains(a)
                                        && !stack@.contains(a) && #[trigger] m.step(a, b) implies cell_of(
                                    visited@,
                                    b,
                                ) by {
                                    if a != next {
                                        assert(cell_of(before, a));
                                        if stack_before.contains(a) {
                                            let k = choose|k: int| 0 <= k < stack_before.len() && stack_before[k] == a;
                                            assert(stack@[k] == a);
                                        }
                                        assert(cell_of(before, b));
                                    } else {
                                        assert(stack@[stack@.len() - 1] == next);
                                    }
                                }
                            }
                        }
                    }
                }
                i = i + 1;
            }
            proof {
                assert forall|a: Location, b: Location|
                    m.in_bounds(a) && cell_of(visited@, a) && !stack@.contains(a) && #[trigger] m.step(
                        a,
                        b,
                    ) implies cell_of(visited@, b) by {
                    if a == cur {
                        let d = lemma_step_direction(m, cur, b);
                        assert(m.neighbor(cur, d) is Some);
                    } else if full.contains(a) {
                        let k = choose|k: int| 0 <= k < full.len() && full[k] == a;
                        assert(stack@[k] == a);
                    }
                }
            }
        }
        proof {
            let s = |l: Location| m.in_bounds(l) && cell_of(visited@, l);
            assert forall|a: Location, b: Location| s(a) && #[trigger] m.step(a, b) implies s(b) by {}
            assert forall|l: Location| #[trigger] m.in_bounds(l) implies (cell_of(visited@, l) <==> m.reachable(l)) by {
                if m.reachable(l) {
                    lemma_closed_holds_reachable(m, s, l);
                }
            }
        }
        visited
    }

    /// Whether every cell can be reached from the start.
    pub(crate) fn is_fully_connected(&self) -> (b: bool)
        ensures
            b == self@.fully_connected(),
    {
        let visited = self.generate_visitable_map();
        let b = all_marked(&visited, self.size.width, self.size.height);
        proof {
            if b {
                assert forall|l: Location| self@.in_bounds(l) implies #[trigger] self@.reachable(l) by {
                    assert(cell_of(visited@, l));
                }
            } else {
                let l = choose|l: Location| l.x < self@.width && l.y < self@.height && !cell_of(visited@, l);
                assert(self@.in_bounds(l));
            }
        }
        b
    }
}

} // verus!
