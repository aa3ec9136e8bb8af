//! Where the markers end up when a route or a game is drawn over a maze:
//! `S` and `F` each appear once, and the player `@` once.
use vstd::prelude::*;

use super::render::{
    base_lines, clear_marker, draw_segment, draw_segments, game_lines, line_count, line_width, mark_cell,
    mark_cells, overlay, path_char, render_center, route_char, set_char, uniform,
};
use crate::topology::{Location, MazeModel};

verus! {

/// The character at line `r`, column `c` of `lines`.
spec fn at(lines: Seq<Seq<char>>, r: int, c: int) -> char {
    lines[r][c]
}

/// The character in the middle of cell `(x, y)` in `lines`.
spec fn center_at(lines: Seq<Seq<char>>, x: int, y: int) -> char {
    lines[1 + 3 * y][3 + 6 * x]
}

/// The position of the copy below the middle of cell `l`.
spec fn lower(l: Location) -> (int, int) {
    (render_center(l).0 + 1, render_center(l).1)
}

spec fn in_drawing(m: MazeModel, r: int, c: int) -> bool {
    0 <= r < line_count(m) && 0 <= c < line_width(m)
}

/// What drawing the segments of a walk keeps of the plain drawing: the middle
/// of every cell, and no new `S`, `F` or `@`.
spec fn segments_keep(m: MazeModel, lines: Seq<Seq<char>>) -> bool {
    &&& uniform(lines, line_count(m) as int, line_width(m) as int)
    &&& forall|x: int, y: int|
        0 <= x < m.width && 0 <= y < m.height ==> #[trigger] center_at(lines, x, y) == center_at(
            base_lines(m),
            x,
            y,
        )
    &&& forall|r: int, c: int| in_drawing(m, r, c) && #[trigger] at(lines, r, c) == 'S' ==> at(base_lines(m), r, c) == 'S'
    &&& forall|r: int, c: int| in_drawing(m, r, c) && #[trigger] at(lines, r, c) == 'F' ==> at(base_lines(m), r, c) == 'F'
    &&& forall|r: int, c: int| in_drawing(m, r, c) ==> #[trigger] at(lines, r, c) != '@'
}

proof fn lemma_base_keeps(m: MazeModel)
    requires
        m.well_formed(),
    ensures
        segments_keep(m, base_lines(m)),
{
    assert forall|r: int, c: int| in_drawing(m, r, c) implies #[trigger] at(base_lines(m), r, c) != '@' by {}
}

proof fn lemma_segment_keeps(m: MazeModel, lines: Seq<Seq<char>>, a: Location, b: Location)
    requires
        m.well_formed(),
        crate::maze::dimensions_fit(m.width as int, m.height as int),
        segments_keep(m, lines),
        m.step(a, b),
    ensures
        segments_keep(m, draw_segment(lines, a, b)),
{
    let n = draw_segment(lines, a, b);
    assert forall|x: int, y: int| 0 <= x < m.width && 0 <= y < m.height implies #[trigger] center_at(n, x, y)
        == center_at(base_lines(m), x, y) by {
        assert(center_at(lines, x, y) == center_at(base_lines(m), x, y));
    }
    assert forall|r: int, c: int| in_drawing(m, r, c) && #[trigger] at(n, r, c) == 'S' implies at(base_lines(m), r, c)
        == 'S' by {
        assert(at(lines, r, c) == 'S');
    }
    assert forall|r: int, c: int| in_drawing(m, r, c) && #[trigger] at(n, r, c) == 'F' implies at(base_lines(m), r, c)
        == 'F' by {
        assert(at(lines, r, c) == 'F');
    }
    assert forall|r: int, c: int| in_drawing(m, r, c) implies #[trigger] at(n, r, c) != '@' by {
        assert(at(lines, r, c) != '@');
    }
}

proof fn lemma_segments_keep(m: MazeModel, p: Seq<Location>, k: int)
    requires
        m.well_formed(),
        crate::maze::dimensions_fit(m.width as int, m.height as int),
        m.is_walk(p),
        0 <= k < p.len(),
    ensures
        segments_keep(m, draw_segments(base_lines(m), p, k)),
    decreases k,
{
    if k == 0 {
        lemma_base_keeps(m);
    } else {
        lemma_segments_keep(m, p, k - 1);
        assert(m.walk_step(p, k - 1));
        lemma_segment_keeps(m, draw_segments(base_lines(m), p, k - 1), p[k - 1], p[k]);
    }
}

/// The middle of the finish cell and the copy below it.
spec fn finish_center(m: MazeModel) -> (int, int) {
    render_center(m.finish())
}

/// What marking the first `k` cells of `p` leaves: `S` in the middle of the
/// start and `F` in the middle of the finish; the copies below them only
/// until those cells are marked; no `@`.
spec fn marks_keep(m: MazeModel, lines: Seq<Seq<char>>, p: Seq<Location>, k: int) -> bool {
    let (fr, fc) = finish_center(m);
    &&& uniform(lines, line_count(m) as int, line_width(m) as int)
    &&& center_at(lines, 0, 0) == 'S'
    &&& center_at(lines, m.width - 1, m.height - 1) == 'F'
    &&& forall|r: int, c: int|
        in_drawing(m, r, c) && #[trigger] at(lines, r, c) == 'S' ==> (r == 1 && c == 3) || (!p.take(k).contains(
            m.start(),
        ) && r == 2 && c == 3)
    &&& forall|r: int, c: int|
        in_drawing(m, r, c) && #[trigger] at(lines, r, c) == 'F' ==> (r == fr && c == fc) || (!p.take(k).contains(
            m.finish(),
        ) && r == fr + 1 && c == fc)
    &&& forall|r: int, c: int| in_drawing(m, r, c) ==> #[trigger] at(lines, r, c) != '@'
}

proof fn lemma_path_char_plain(mask: u8)
    ensures
        path_char(mask) != 'S',
        path_char(mask) != 'F',
        path_char(mask) != '@',
{
}

proof fn lemma_marks_start(m: MazeModel, p: Seq<Location>)
    requires
        m.well_formed(),
        crate::maze::dimensions_fit(m.width as int, m.height as int),
        m.width > 1 || m.height > 1,
        m.is_walk(p),
        p.len() >= 1,
    ensures
        marks_keep(m, draw_segments(base_lines(m), p, p.len() - 1), p, 0),
{
    let lines = draw_segments(base_lines(m), p, p.len() - 1);
    lemma_segments_keep(m, p, p.len() - 1);
    let (fr, fc) = finish_center(m);
    assert(center_at(lines, 0, 0) == center_at(base_lines(m), 0, 0));
    super::render::lemma_render_start_marker(m, 1, 3);
    assert(center_at(lines, m.width - 1, m.height - 1) == center_at(base_lines(m), m.width - 1, m.height - 1));
    super::render::lemma_render_finish_marker(m, fr, fc);
    assert forall|r: int, c: int| in_drawing(m, r, c) && #[trigger] at(lines, r, c) == 'S' implies (r == 1 && c == 3)
        || (!p.take(0).contains(m.start()) && r == 2 && c == 3) by {
        super::render::lemma_render_start_marker(m, r, c);
    }
    assert forall|r: int, c: int| in_drawing(m, r, c) && #[trigger] at(lines, r, c) == 'F' implies (r == fr && c == fc)
        || (!p.take(0).contains(m.finish()) && r == fr + 1 && c == fc) by {
        super::render::lemma_render_finish_marker(m, r, c);
    }
}

proof fn lemma_mark_keeps(m: MazeModel, lines: Seq<Seq<char>>, p: Seq<Location>, k: int)
    requires
        m.well_formed(),
        crate::maze::dimensions_fit(m.width as int, m.height as int),
        m.width > 1 || m.height > 1,
        0 <= k < p.len(),
        m.in_bounds(p[k]),
        marks_keep(m, lines, p, k),
    ensures
        marks_keep(m, mark_cell(m, lines, p, k), p, k + 1),
{
    let l = p[k];
    let (cr, cc) = render_center(l);
    let (fr, fc) = finish_center(m);
    let l1 = clear_marker(m, lines, l);
    let l2 = mark_cell(m, lines, p, k);
    let ch = route_char(m, p, k);
    lemma_path_char_plain(super::render::connections(p, k));
    assert(p.take(k + 1) == p.take(k).push(l));
    assert(l2 == set_char(l1, cr, cc, ch));
    assert(uniform(l1, line_count(m) as int, line_width(m) as int));
    assert(center_at(l2, 0, 0) == 'S') by {
        if cr == 1 && cc == 3 {
            assert(l == m.start());
        } else {
            assert(center_at(l1, 0, 0) == center_at(lines, 0, 0));
        }
    }
    assert(center_at(l2, m.width - 1, m.height - 1) == 'F') by {
        if cr == fr && cc == fc {
            assert(l == m.finish());
        } else {
            assert(center_at(l1, m.width - 1, m.height - 1) == center_at(lines, m.width - 1, m.height - 1));
        }
    }
    assert forall|r: int, c: int| in_drawing(m, r, c) && #[trigger] at(l2, r, c) == 'S' implies (r == 1 && c == 3) || (
    !p.take(k + 1).contains(m.start()) && r == 2 && c == 3) by {
        if r == cr && c == cc {
        } else {
            assert(at(l1, r, c) == 'S');
            assert(at(lines, r, c) == 'S');
            if r == 2 && c == 3 && !(r == 1 && c == 3) {
                if l == m.start() {
                    assert(false);
                }
                if p.take(k + 1).contains(m.start()) {
                    let q = p.take(k + 1);
                    let t = choose|t: int| 0 <= t < q.len() && #[trigger] q[t] == m.start();
                    assert(p.take(k)[t] == m.start());
                }
            }
        }
    }
    assert forall|r: int, c: int| in_drawing(m, r, c) && #[trigger] at(l2, r, c) == 'F' implies (r == fr && c == fc) || (
    !p.take(k + 1).contains(m.finish()) && r == fr + 1 && c == fc) by {
        if r == cr && c == cc {
        } else {
            assert(at(l1, r, c) == 'F');
            assert(at(lines, r, c) == 'F');
            if r == fr + 1 && c == fc {
                if l == m.finish() {
                    assert(false);
                }
                if p.take(k + 1).contains(m.finish()) {
                    let q = p.take(k + 1);
                    let t = choose|t: int| 0 <= t < q.len() && #[trigger] q[t] == m.finish();
                    assert(p.take(k)[t] == m.finish());
                }
            }
        }
    }
    assert forall|r: int, c: int| in_drawing(m, r, c) implies #[trigger] at(l2, r, c) != '@' by {
        if !(r == cr && c == cc) {
            assert(at(lines, r, c) != '@');
        }
    }
}

proof fn lemma_marks_keep(m: MazeModel, p: Seq<Location>, k: int)
    requires
        m.well_formed(),
        crate::maze::dimensions_fit(m.width as int, m.height as int),
        m.width > 1 || m.height > 1,
        m.is_walk(p),
        p.len() >= 1,
        forall|i: int| 0 <= i < p.len() ==> m.in_bounds(#[trigger] p[i]),
        0 <= k <= p.len(),
    ensures
        marks_keep(m, mark_cells(m, draw_segments(base_lines(m), p, p.len() - 1), p, k), p, k),
    decreases k,
{
    if k == 0 {
        lemma_marks_start(m, p);
    } else {
        lemma_marks_keep(m, p, k - 1);
        lemma_mark_keeps(m, mark_cells(m, draw_segments(base_lines(m), p, p.len() - 1), p, k - 1), p, k - 1);
    }
}

/// Every cell of a walk that starts in the maze lies in the maze.
proof fn lemma_walk_in_bounds(m: MazeModel, p: Seq<Location>)
    requires
        m.is_walk(p),
        p.len() >= 1,
        m.in_bounds(p[0]),
    ensures
        forall|i: int| 0 <= i < p.len() ==> m.in_bounds(#[trigger] p[i]),
{
    assert forall|i: int| 0 <= i < p.len() implies m.in_bounds(#[trigger] p[i]) by {
        if i > 0 {
            assert(m.walk_step(p, i - 1));
        }
    }
}

/// Drawn over a maze of more than one cell, a route from the start to the
/// finish (such as the one `solve` returns) leaves exactly one `S`, in the
/// middle of the start cell, and exactly one `F`, in the middle of the finish
/// cell.
pub proof fn lemma_route_markers(m: MazeModel, p: Seq<Location>, r: int, c: int)
    requires
        m.well_formed(),
        crate::maze::dimensions_fit(m.width as int, m.height as int),
        m.width > 1 || m.height > 1,
        m.route(p, m.start(), m.finish()),
        0 <= r < line_count(m),
        0 <= c < line_width(m),
    ensures
        overlay(m, base_lines(m), p)[r][c] == 'S' <==> (r == 1 && c == 3),
        overlay(m, base_lines(m), p)[r][c] == 'F' <==> (r, c) == render_center(m.finish()),
{
    lemma_walk_in_bounds(m, p);
    lemma_marks_keep(m, p, p.len() as int);
    assert(p.take(p.len() as int) == p);
    assert(p.contains(m.start())) by {
        assert(p[0] == m.start());
    }
    assert(p.contains(m.finish())) by {
        assert(p[p.len() - 1] == m.finish());
    }
    let lines = overlay(m, base_lines(m), p);
    assert(at(lines, r, c) == lines[r][c]);
    assert(center_at(lines, 0, 0) == lines[1][3]);
}

/// The game screen of a maze of more than one cell, for a trail that is a
/// route from the start to the player's cell, shows exactly one `S` (middle of
/// the start cell), one `F` (middle of the finish cell) and one `@` (just
/// below the middle of the player's cell).
pub proof fn lemma_game_markers(m: MazeModel, trail: Seq<Location>, player: Location, r: int, c: int)
    requires
        m.well_formed(),
        crate::maze::dimensions_fit(m.width as int, m.height as int),
        m.width > 1 || m.height > 1,
        m.route(trail, m.start(), player),
        0 <= r < line_count(m),
        0 <= c < line_width(m),
    ensures
        game_lines(m, trail, player)[r][c] == 'S' <==> (r == 1 && c == 3),
        game_lines(m, trail, player)[r][c] == 'F' <==> (r, c) == render_center(m.finish()),
        game_lines(m, trail, player)[r][c] == '@' <==> (r, c) == (render_center(player).0 + 1, render_center(player).1),
{
    lemma_walk_in_bounds(m, trail);
    lemma_marks_keep(m, trail, trail.len() as int);
    assert(trail.take(trail.len() as int) == trail);
    assert(trail.contains(m.start())) by {
        assert(trail[0] == m.start());
    }
    assert(m.in_bounds(player)) by {
        assert(trail[trail.len() - 1] == player);
    }
    let g0 = overlay(m, base_lines(m), trail);
    let g1 = clear_marker(m, g0, m.start());
    let g2 = clear_marker(m, g1, m.finish());
    let (fr, fc) = finish_center(m);
    let (pr, pc) = lower(player);
    assert(at(g0, r, c) == g0[r][c]);
    assert(center_at(g0, 0, 0) == g0[1][3]);
    assert(center_at(g0, m.width - 1, m.height - 1) == g0[fr][fc]);
    assert(uniform(g2, line_count(m) as int, line_width(m) as int));
    assert(g2[1][3] == 'S');
    assert(g2[fr][fc] == 'F');
    assert(g2[r][c] == 'S' ==> r == 1 && c == 3) by {
        if g2[r][c] == 'S' {
            assert(g1[r][c] == 'S');
            assert(at(g0, r, c) == 'S');
        }
    }
    assert(g2[r][c] == 'F' ==> r == fr && c == fc) by {
        if g2[r][c] == 'F' {
            assert(g1[r][c] == 'F');
            assert(at(g0, r, c) == 'F');
        }
    }
    assert(g2[r][c] != '@') by {
        assert(at(g0, r, c) != '@');
    }
    assert(game_lines(m, trail, player) == set_char(g2, pr, pc, '@'));
}

/// The position just right of the middle of cell `(x, y)`, where a segment
/// to the east neighbour draws `─`, or the position on the border line below
/// the cell, where a segment to the south neighbour draws `│`.
spec fn segment_mark(east: bool, x: int, y: int) -> (int, int, char) {
    if east {
        (1 + 3 * y, 4 + 6 * x, '─')
    } else {
        (3 + 3 * y, 3 + 6 * x, '│')
    }
}

/// Drawing a segment between neighbours, or marking a cell, leaves a segment
/// mark in place.
proof fn lemma_segment_mark_stays(m: MazeModel, lines: Seq<Seq<char>>, a: Location, b: Location, east: bool, x: int, y: int)
    requires
        m.well_formed(),
        crate::maze::dimensions_fit(m.width as int, m.height as int),
        uniform(lines, line_count(m) as int, line_width(m) as int),
        m.step(a, b),
        0 <= x < m.width,
        0 <= y < m.height,
        lines[segment_mark(east, x, y).0][segment_mark(east, x, y).1] == segment_mark(east, x, y).2,
    ensures
        draw_segment(lines, a, b)[segment_mark(east, x, y).0][segment_mark(east, x, y).1] == segment_mark(east, x, y).2,
{
}

proof fn lemma_segment_mark_survives_marks(m: MazeModel, lines: Seq<Seq<char>>, p: Seq<Location>, k: int, east: bool, x: int, y: int)
    requires
        m.well_formed(),
        crate::maze::dimensions_fit(m.width as int, m.height as int),
        uniform(lines, line_count(m) as int, line_width(m) as int),
        forall|i: int| 0 <= i < p.len() ==> m.in_bounds(#[trigger] p[i]),
        0 <= k <= p.len(),
        0 <= x < m.width,
        0 <= y < m.height,
        lines[segment_mark(east, x, y).0][segment_mark(east, x, y).1] == segment_mark(east, x, y).2,
    ensures
        uniform(mark_cells(m, lines, p, k), line_count(m) as int, line_width(m) as int),
        mark_cells(m, lines, p, k)[segment_mark(east, x, y).0][segment_mark(east, x, y).1] == segment_mark(east, x, y).2,
    decreases k,
{
    if k > 0 {
        lemma_segment_mark_survives_marks(m, lines, p, k - 1, east, x, y);
        let l = p[k - 1];
        assert(m.in_bounds(l));
    }
}

proof fn lemma_segment_mark_survives_segments(m: MazeModel, p: Seq<Location>, k: int, east: bool, x: int, y: int)
    requires
        m.well_formed(),
        crate::maze::dimensions_fit(m.width as int, m.height as int),
        m.is_walk(p),
        1 <= k < p.len(),
        0 <= x < m.width,
        0 <= y < m.height,
        draw_segments(base_lines(m), p, 1)[segment_mark(east, x, y).0][segment_mark(east, x, y).1] == segment_mark(east, x, y).2,
    ensures
        draw_segments(base_lines(m), p, k)[segment_mark(east, x, y).0][segment_mark(east, x, y).1] == segment_mark(east, x, y).2,
    decreases k,
{
    if k > 1 {
        lemma_segment_mark_survives_segments(m, p, k - 1, east, x, y);
        lemma_segments_keep(m, p, k - 1);
        assert(m.walk_step(p, k - 1));
        lemma_segment_mark_stays(m, draw_segments(base_lines(m), p, k - 1), p[k - 1], p[k], east, x, y);
    }
}

/// Drawn over a maze, a walk of two or more cells shows the line segment from
/// its first cell to its second: `─` right of the middle of the western of the
/// two cells, or `│` on the border line below the northern one.
pub proof fn lemma_walk_shows_segment(m: MazeModel, p: Seq<Location>)
    requires
        m.well_formed(),
        crate::maze::dimensions_fit(m.width as int, m.height as int),
        m.is_walk(p),
        p.len() >= 2,
    ensures
        ({
            let (a, b) = (p[0], p[1]);
            let lines = overlay(m, base_lines(m), p);
            if a.y == b.y {
                lines[1 + 3 * a.y][4 + 6 * if a.x < b.x { a.x } else { b.x }] == '─'
            } else {
                lines[3 + 3 * if a.y < b.y { a.y } else { b.y }][3 + 6 * a.x] == '│'
            }
        }),
{
    let (a, b) = (p[0], p[1]);
    assert(m.walk_step(p, 0));
    let east = a.y == b.y;
    let x: int = if east {
        if a.x < b.x { a.x as int } else { b.x as int }
    } else {
        a.x as int
    };
    let y: int = if east {
        a.y as int
    } else {
        if a.y < b.y { a.y as int } else { b.y as int }
    };
    lemma_base_keeps(m);
    assert(draw_segments(base_lines(m), p, 0) == base_lines(m));
    assert(draw_segments(base_lines(m), p, 1) == draw_segment(base_lines(m), a, b));
    assert(draw_segments(base_lines(m), p, 1)[segment_mark(east, x, y).0][segment_mark(east, x, y).1] == segment_mark(east, x, y).2);
    lemma_segment_mark_survives_segments(m, p, p.len() - 1, east, x, y);
    lemma_segments_keep(m, p, p.len() - 1);
    lemma_walk_in_bounds(m, p);
    lemma_segment_mark_survives_marks(m, draw_segments(base_lines(m), p, p.len() - 1), p, p.len() as int, east, x, y);
}

} // verus!
