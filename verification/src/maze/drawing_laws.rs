//! What each character of a drawing is, stated cell by cell in terms of the
//! maze, and how a route is drawn over it.
use vstd::prelude::*;

use super::render::{base_lines, connections, draw_segment, lemma_block, path_char, route_char, uniform};
use crate::topology::{Location, MazeModel};

verus! {

/// The arms of a line-drawing character, as (north, east, south, west).
pub open spec fn arms(c: char) -> (bool, bool, bool, bool) {
    if c == '│' {
        (true, false, true, false)
    } else if c == '─' {
        (false, true, false, true)
    } else if c == '└' {
        (true, true, false, false)
    } else if c == '┘' {
        (true, false, false, true)
    } else if c == '┌' {
        (false, true, true, false)
    } else if c == '┐' {
        (false, false, true, true)
    } else if c == '├' {
        (true, true, true, false)
    } else if c == '┤' {
        (true, false, true, true)
    } else if c == '┴' {
        (true, true, false, true)
    } else if c == '┬' {
        (false, true, true, true)
    } else if c == '┼' {
        (true, true, true, true)
    } else {
        (false, false, false, false)
    }
}

/// The set of directions `n`, `e`, `s`, `w` as a mask: north 1, east 2,
/// south 4, west 8.
pub open spec fn mask_of(n: bool, e: bool, s: bool, w: bool) -> u8 {
    ((if n { 1int } else { 0int }) + (if e { 2int } else { 0int }) + (if s { 4int } else { 0int }) + (if w {
        8int
    } else {
        0int
    })) as u8
}

/// The character drawn in the middle of a route cell joins exactly the
/// directions in which the route leaves it: two or more directions give the
/// character with those arms; a single direction is drawn as a straight line
/// through the cell (`│` for north or south, `─` for east or west); none gives `•`.
pub proof fn lemma_path_char_arms(n: bool, e: bool, s: bool, w: bool)
    ensures
        ({
            let k = (if n { 1int } else { 0int }) + (if e { 1int } else { 0int }) + (if s { 1int } else { 0int }) + (
            if w {
                1int
            } else {
                0int
            });
            &&& k >= 2 ==> arms(path_char(mask_of(n, e, s, w))) == (n, e, s, w)
            &&& k == 1 && (n || s) ==> path_char(mask_of(n, e, s, w)) == '│'
            &&& k == 1 && (e || w) ==> path_char(mask_of(n, e, s, w)) == '─'
            &&& k == 0 ==> path_char(mask_of(n, e, s, w)) == '•'
        }),
{
}

/// `b` is the cell north of `a`.
pub open spec fn is_north_of(b: Location, a: Location) -> bool {
    b.x == a.x && b.y + 1 == a.y
}

/// `b` is the cell east of `a`.
pub open spec fn is_east_of(b: Location, a: Location) -> bool {
    b.y == a.y && b.x == a.x + 1
}

/// `b` is the cell south of `a`.
pub open spec fn is_south_of(b: Location, a: Location) -> bool {
    b.x == a.x && b.y == a.y + 1
}

/// `b` is the cell west of `a`.
pub open spec fn is_west_of(b: Location, a: Location) -> bool {
    b.y == a.y && b.x + 1 == a.x
}

/// One of the neighbours of the `idx`-th cell on `path` (the cell before it or
/// the cell after it) satisfies `rel`.
pub open spec fn path_neighbour(path: Seq<Location>, idx: int, rel: spec_fn(Location, Location) -> bool) -> bool {
    ||| idx > 0 && rel(path[idx - 1], path[idx])
    ||| idx + 1 < path.len() && rel(path[idx + 1], path[idx])
}

proof fn lemma_or_bits(a: u8, b: u8)
    requires
        a == 0 || a == 1 || a == 2 || a == 4 || a == 8,
        b == 0 || b == 1 || b == 2 || b == 4 || b == 8,
    ensures
        (a | b) == if a == b { a as int } else { a + b },
        (0u8 | a) == a,
{
    assert((a == 0 || a == 1 || a == 2 || a == 4 || a == 8) && (b == 0 || b == 1 || b == 2 || b == 4 || b == 8)
        ==> (a | b) == if a == b { a as int } else { a + b }) by (bit_vector);
    assert((0u8 | a) == a) by (bit_vector);
}

/// The directions recorded for the `idx`-th cell of a route are exactly those
/// of its neighbours on the route: north if the cell before or after it lies
/// north of it, and so on.
pub proof fn lemma_connections(path: Seq<Location>, idx: int)
    requires
        0 <= idx < path.len(),
    ensures
        connections(path, idx) == mask_of(
            path_neighbour(path, idx, |b: Location, a: Location| is_north_of(b, a)),
            path_neighbour(path, idx, |b: Location, a: Location| is_east_of(b, a)),
            path_neighbour(path, idx, |b: Location, a: Location| is_south_of(b, a)),
            path_neighbour(path, idx, |b: Location, a: Location| is_west_of(b, a)),
        ),
{
    let here = path[idx];
    let m1: u8 = if idx > 0 && super::render::direction_between(here, path[idx - 1]) is Some {
        super::render::direction_mask(super::render::direction_between(here, path[idx - 1])->0)
    } else {
        0u8
    };
    let m2: u8 = if idx + 1 < path.len() && super::render::direction_between(here, path[idx + 1]) is Some {
        super::render::direction_mask(super::render::direction_between(here, path[idx + 1])->0)
    } else {
        0u8
    };
    lemma_or_bits(m1, m2);
    lemma_or_bits(0u8, m1);
}

/// The middle of the `idx`-th cell of a route drawn over maze `m` shows `S`
/// at the start, `F` at the finish, and elsewhere the line-drawing character
/// for the directions of its neighbours on the route.
pub proof fn lemma_route_char(m: MazeModel, path: Seq<Location>, idx: int)
    requires
        0 <= idx < path.len(),
    ensures
        route_char(m, path, idx) == if path[idx] == m.start() {
            'S'
        } else if path[idx] == m.finish() {
            'F'
        } else {
            path_char(
                mask_of(
                    path_neighbour(path, idx, |b: Location, a: Location| is_north_of(b, a)),
                    path_neighbour(path, idx, |b: Location, a: Location| is_east_of(b, a)),
                    path_neighbour(path, idx, |b: Location, a: Location| is_south_of(b, a)),
                    path_neighbour(path, idx, |b: Location, a: Location| is_west_of(b, a)),
                ),
            )
        },
{
    lemma_connections(path, idx);
}

/// A mask outside the sixteen sets of directions is drawn as `•`.
pub proof fn lemma_path_char_out_of_range(mask: u8)
    requires
        mask >= 16,
    ensures
        path_char(mask) == '•',
{
}

/// The top line: `╔`, then for each cell five `═` and a junction, `╦` between
/// two cells and `╗` after the last one.
pub proof fn lemma_render_top(m: MazeModel, x: int)
    requires
        0 <= x < m.width,
    ensures
        forall|k: int| 1 <= k <= 5 ==> #[trigger] base_lines(m)[0][6 * x + k] == '═',
        base_lines(m)[0][6 * x + 6] == if x == m.width - 1 {
            '╗'
        } else {
            '╦'
        },
        base_lines(m)[0][0] == '╔',
{
    assert forall|k: int| 1 <= k <= 5 implies #[trigger] base_lines(m)[0][6 * x + k] == '═' by {
        lemma_block(x, k - 1, 6);
    }
    lemma_block(x, 5, 6);
}

/// The left border: `║` beside each row of cells, `╠` on the border line
/// below a row, `╚` below the last row.
pub proof fn lemma_render_left(m: MazeModel, y: int)
    requires
        0 <= y < m.height,
    ensures
        base_lines(m)[1 + 3 * y][0] == '║',
        base_lines(m)[2 + 3 * y][0] == '║',
        base_lines(m)[3 + 3 * y][0] == if y == m.height - 1 {
            '╚'
        } else {
            '╠'
        },
{
    lemma_block(y, 0, 3);
    lemma_block(y, 1, 3);
    lemma_block(y, 2, 3);
}

/// The inside of cell `(x, y)`, on both of its lines: blank but for the middle
/// column, which holds `S` in the start cell, `F` in the finish cell and a
/// blank elsewhere.
pub proof fn lemma_render_inside(m: MazeModel, x: int, y: int, line: int, k: int)
    requires
        0 <= x < m.width,
        0 <= y < m.height,
        line == 1 + 3 * y || line == 2 + 3 * y,
        1 <= k <= 5,
    ensures
        base_lines(m)[line][6 * x + k] == if k != 3 {
            ' '
        } else if x == 0 && y == 0 {
            'S'
        } else if x == m.width - 1 && y == m.height - 1 {
            'F'
        } else {
            ' '
        },
{
    lemma_block(x, k - 1, 6);
    lemma_block(y, 0, 3);
    lemma_block(y, 1, 3);
}

/// The junction below the south-east corner of cell `(x, y)`: `╬` inside the
/// grid, `╣` on the right border, `╩` on the bottom border, `╝` in the corner.
pub proof fn lemma_render_junction(m: MazeModel, x: int, y: int)
    requires
        0 <= x < m.width,
        0 <= y < m.height,
    ensures
        base_lines(m)[3 + 3 * y][6 + 6 * x] == if x < m.width - 1 && y < m.height - 1 {
            '╬'
        } else if x < m.width - 1 {
            '╩'
        } else if y < m.height - 1 {
            '╣'
        } else {
            '╝'
        },
{
    lemma_block(x, 5, 6);
    lemma_block(y, 2, 3);
}

/// Drawing the segment between two cells does not depend on which of them
/// comes first on the route.
pub proof fn lemma_segment_symmetric(lines: Seq<Seq<char>>, a: Location, b: Location)
    ensures
        draw_segment(lines, a, b) == draw_segment(lines, b, a),
{
    let l = draw_segment(lines, a, b);
    let r = draw_segment(lines, b, a);
    assert(l =~= r);
}

/// The segment between a cell and its eastern neighbour is drawn as `─` on the
/// five columns between their middles, on the upper line of their row; nothing
/// else changes.
pub proof fn lemma_segment_east(lines: Seq<Seq<char>>, n: int, w: int, a: Location, b: Location)
    requires
        uniform(lines, n, w),
        b.x == a.x + 1,
        b.y == a.y,
        1 + 3 * a.y < n,
        9 + 6 * a.x < w,
    ensures
        uniform(draw_segment(lines, a, b), n, w),
        forall|r: int, c: int|
            0 <= r < n && 0 <= c < w ==> #[trigger] draw_segment(lines, a, b)[r][c] == if r == 1 + 3 * a.y && 4 + 6
                * a.x <= c <= 8 + 6 * a.x {
                '─'
            } else {
                lines[r][c]
            },
{
    let d = draw_segment(lines, a, b);
    assert forall|r: int, c: int| 0 <= r < n && 0 <= c < w implies #[trigger] d[r][c] == if r == 1 + 3 * a.y && 4
        + 6 * a.x <= c <= 8 + 6 * a.x {
        '─'
    } else {
        lines[r][c]
    } by {
        assert(lines[r].len() == w);
    }
}

/// The segment between a cell and its southern neighbour is drawn as `│` in
/// the middle column of the cells, on the two lines between their middles;
/// nothing else changes.
pub proof fn lemma_segment_south(lines: Seq<Seq<char>>, n: int, w: int, a: Location, b: Location)
    requires
        uniform(lines, n, w),
        b.x == a.x,
        b.y == a.y + 1,
        4 + 3 * a.y < n,
        3 + 6 * a.x < w,
    ensures
        uniform(draw_segment(lines, a, b), n, w),
        forall|r: int, c: int|
            0 <= r < n && 0 <= c < w ==> #[trigger] draw_segment(lines, a, b)[r][c] == if (r == 2 + 3 * a.y || r == 3
                + 3 * a.y) && c == 3 + 6 * a.x {
                '│'
            } else {
                lines[r][c]
            },
{
    let d = draw_segment(lines, a, b);
    assert forall|r: int, c: int| 0 <= r < n && 0 <= c < w implies #[trigger] d[r][c] == if (r == 2 + 3 * a.y || r
        == 3 + 3 * a.y) && c == 3 + 6 * a.x {
        '│'
    } else {
        lines[r][c]
    } by {
        assert(lines[r].len() == w);
    }
}

} // verus!
