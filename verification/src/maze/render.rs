//! Drawing a maze as text with box-drawing characters, optionally with a
//! route through it and the player's position.
use vstd::prelude::*;

use super::{dimensions_fit, Maze};
use crate::text::{lines_view, push_lines, text_of};
use crate::topology::{Direction, Location, MazeModel};
use super::Path;
use vstd::arithmetic::div_mod::{lemma_fundamental_div_mod, lemma_fundamental_div_mod_converse};

verus! {

const WALL_SEGMENT: char = '═';

const OPENING_SEGMENT: char = ' ';

const TOP_LEFT_CORNER: char = '╔';

const TOP_RIGHT_CORNER: char = '╗';

const TOP_T_JUNCTION: char = '╦';

const LEFT_T_JUNCTION: char = '╠';

const RIGHT_T_JUNCTION: char = '╣';

const BOTTOM_T_JUNCTION: char = '╩';

const CENTER_JUNCTION: char = '╬';

const LEFT_WALL: char = '║';

const RIGHT_WALL: char = '║';

const BOTTOM_LEFT_CORNER: char = '╚';

const BOTTOM_RIGHT_CORNER: char = '╝';

/// The marker drawn in the middle of cell `(x, y)`: `S` at the start, `F` at the finish.
pub open spec fn center_marker(m: MazeModel, x: int, y: int) -> char {
    if x == 0 && y == 0 {
        'S'
    } else if x == m.width - 1 && y == m.height - 1 {
        'F'
    } else {
        ' '
    }
}

/// The character drawn below the south-east corner of cell `(x, y)`.
pub open spec fn junction(m: MazeModel, x: int, y: int) -> char {
    if x == m.width - 1 && y == m.height - 1 {
        '╝'
    } else if x == m.width - 1 {
        '╣'
    } else if y == m.height - 1 {
        '╩'
    } else {
        '╬'
    }
}

/// Column `c` of the top border. Each cell takes six columns after the
/// first: five of wall, then a junction.
pub open spec fn top_char(m: MazeModel, c: int) -> char {
    if c == 0 {
        '╔'
    } else if (c - 1) % 6 < 5 {
        '═'
    } else if (c - 1) / 6 == m.width - 1 {
        '╗'
    } else {
        '╦'
    }
}

/// Column `c` of either text line that shows the inside of row `y`: the
/// marker in the middle of each cell, its east wall after it.
pub open spec fn body_char(m: MazeModel, y: int, c: int) -> char {
    if c == 0 {
        '║'
    } else if (c - 1) % 6 == 2 {
        center_marker(m, (c - 1) / 6, y)
    } else if (c - 1) % 6 == 5 {
        if m.east_open((c - 1) / 6, y) {
            ' '
        } else {
            '║'
        }
    } else {
        ' '
    }
}

/// Column `c` of the text line below row `y`: the south walls and the junctions.
pub open spec fn border_char(m: MazeModel, y: int, c: int) -> char {
    if c == 0 {
        if y == m.height - 1 {
            '╚'
        } else {
            '╠'
        }
    } else if (c - 1) % 6 < 5 {
        if m.south_open((c - 1) / 6, y) {
            ' '
        } else {
            '═'
        }
    } else {
        junction(m, (c - 1) / 6, y)
    }
}

/// The character at line `r`, column `c` of the drawing: one top line, then
/// three lines per row of cells (the inside twice, then the border below).
pub open spec fn base_char(m: MazeModel, r: int, c: int) -> char {
    if r == 0 {
        top_char(m, c)
    } else if (r - 1) % 3 < 2 {
        body_char(m, (r - 1) / 3, c)
    } else {
        border_char(m, (r - 1) / 3, c)
    }
}

pub open spec fn line_width(m: MazeModel) -> nat {
    (1 + 6 * m.width) as nat
}

pub open spec fn line_count(m: MazeModel) -> nat {
    (1 + 3 * m.height) as nat
}

/// The drawing of the maze, line by line.
pub open spec fn base_lines(m: MazeModel) -> Seq<Seq<char>> {
    Seq::new(line_count(m), |r: int| Seq::new(line_width(m), |c: int| base_char(m, r, c)))
}

/// The text position of the middle of the drawing of cell `l`: line, column.
pub open spec fn render_center(l: Location) -> (int, int) {
    (1 + 3 * l.y, 3 + 6 * l.x)
}

/// The text position of `l` can be computed without overflow.
pub open spec fn center_fits(l: Location) -> bool {
    &&& 3 * l.y + 1 <= usize::MAX
    &&& 6 * l.x + 3 <= usize::MAX
}

pub open spec fn min_of(a: int, b: int) -> int {
    if a < b {
        a
    } else {
        b
    }
}

pub open spec fn max_of(a: int, b: int) -> int {
    if a < b {
        b
    } else {
        a
    }
}

/// Drawing the route segment from `from` to `to` stays inside a drawing of
/// `count` lines of `width` characters (a horizontal segment must fit on its
/// line; a vertical one is cut at the last line).
pub open spec fn segment_fits(count: int, width: int, from: Location, to: Location) -> bool {
    let (fr, fc) = render_center(from);
    let (tr, tc) = render_center(to);
    &&& center_fits(from)
    &&& center_fits(to)
    &&& fr == tr ==> {
        &&& min_of(fc, tc) + 1 <= usize::MAX
        &&& min_of(fc, tc) + 1 < max_of(fc, tc) ==> fr < count && max_of(fc, tc) <= width
    }
    &&& fr != tr && fc == tc ==> {
        &&& min_of(fr, tr) + 1 <= usize::MAX
        &&& min_of(fr, tr) + 1 < min_of(max_of(fr, tr), count) ==> fc < width
    }
}

/// The segment from the `i`-th cell of `p` to the next one fits in the drawing of `m`.
pub open spec fn window_fits(m: MazeModel, p: Seq<Location>, i: int) -> bool {
    segment_fits(line_count(m) as int, line_width(m) as int, p[i], p[i + 1])
}

/// Every segment of `p` fits in the drawing of `m`: the route can be drawn.
pub open spec fn path_fits(m: MazeModel, p: Seq<Location>) -> bool {
    forall|i: int| 0 <= i < p.len() - 1 ==> #[trigger] window_fits(m, p, i)
}

/// `lines` has `count` lines of `width` characters.
pub open spec fn uniform(lines: Seq<Seq<char>>, count: int, width: int) -> bool {
    &&& lines.len() == count
    &&& forall|r: int| 0 <= r < count ==> (#[trigger] lines[r]).len() == width
}

pub open spec fn set_char(lines: Seq<Seq<char>>, r: int, c: int, ch: char) -> Seq<Seq<char>> {
    lines.update(r, lines[r].update(c, ch))
}

/// The drawing with the route segment from `from` to `to`: `─` between two
/// centers on the same line, `│` between two centers in the same column.
pub open spec fn draw_segment(lines: Seq<Seq<char>>, from: Location, to: Location) -> Seq<Seq<char>> {
    let (fr, fc) = render_center(from);
    let (tr, tc) = render_center(to);
    if fr == tr {
        let lo = min_of(fc, tc) + 1;
        let hi = max_of(fc, tc);
        if lo < hi {
            lines.update(fr, Seq::new(lines[fr].len(), |c: int| if lo <= c < hi { '─' } else { lines[fr][c] }))
        } else {
            lines
        }
    } else if fc == tc {
        let lo = min_of(fr, tr) + 1;
        let hi = max_of(fr, tr);
        Seq::new(lines.len(), |r: int| if lo <= r < hi { lines[r].update(fc, '│') } else { lines[r] })
    } else {
        lines
    }
}

/// The drawing with the first `k` segments of `path`.
pub open spec fn draw_segments(lines: Seq<Seq<char>>, path: Seq<Location>, k: int) -> Seq<Seq<char>>
    decreases k,
{
    if k <= 0 {
        lines
    } else {
        draw_segment(draw_segments(lines, path, k - 1), path[k - 1], path[k])
    }
}

/// The drawing with the copy of an `S` or `F` below the center of cell `l` blanked.
pub open spec fn clear_marker(m: MazeModel, lines: Seq<Seq<char>>, l: Location) -> Seq<Seq<char>> {
    let (cr, cc) = render_center(l);
    if !m.in_bounds(l) {
        lines
    } else if cr + 1 < lines.len() && cc < lines[cr + 1].len() && (lines[cr + 1][cc] == 'S' || lines[cr
        + 1][cc] == 'F') {
        set_char(lines, cr + 1, cc, ' ')
    } else {
        lines
    }
}

/// The direction of the single step from `from` to `to`, if they are adjacent.
pub open spec fn direction_between(from: Location, to: Location) -> Option<Direction> {
    if from.x == to.x && from.y + 1 == to.y {
        Some(Direction::South)
    } else if from.x == to.x && from.y == to.y + 1 {
        Some(Direction::North)
    } else if from.y == to.y && from.x + 1 == to.x {
        Some(Direction::East)
    } else if from.y == to.y && from.x == to.x + 1 {
        Some(Direction::West)
    } else {
        None
    }
}

pub open spec fn direction_mask(d: Direction) -> u8 {
    match d {
        Direction::North => 1,
        Direction::East => 2,
        Direction::South => 4,
        Direction::West => 8,
    }
}

/// The line-drawing character that joins the directions set in `mask`.
pub open spec fn path_char(mask: u8) -> char {
    match mask {
        1 | 4 | 5 => '│',
        2 | 8 | 10 => '─',
        3 => '└',
        9 => '┘',
        6 => '┌',
        12 => '┐',
        7 => '├',
        13 => '┤',
        11 => '┴',
        14 => '┬',
        15 => '┼',
        _ => '•',
    }
}

/// The directions from the `idx`-th cell of `path` to its neighbours on the path.
pub open spec fn connections(path: Seq<Location>, idx: int) -> u8 {
    let first: u8 = if idx > 0 && direction_between(path[idx], path[idx - 1]) is Some {
        0u8 | direction_mask(direction_between(path[idx], path[idx - 1])->0)
    } else {
        0u8
    };
    if idx + 1 < path.len() && direction_between(path[idx], path[idx + 1]) is Some {
        first | direction_mask(direction_between(path[idx], path[idx + 1])->0)
    } else {
        first
    }
}

/// What the route draws in the middle of its `idx`-th cell.
pub open spec fn route_char(m: MazeModel, path: Seq<Location>, idx: int) -> char {
    if path[idx] == m.start() {
        'S'
    } else if path[idx] == m.finish() {
        'F'
    } else {
        path_char(connections(path, idx))
    }
}

/// The drawing with the `idx`-th cell of `path` marked, if it is in the maze.
pub open spec fn mark_cell(m: MazeModel, lines: Seq<Seq<char>>, path: Seq<Location>, idx: int) -> Seq<Seq<char>> {
    let l = path[idx];
    let (cr, cc) = render_center(l);
    if !m.in_bounds(l) {
        lines
    } else {
        set_char(clear_marker(m, lines, l), cr, cc, route_char(m, path, idx))
    }
}

/// The drawing with the first `k` cells of `path` marked.
pub open spec fn mark_cells(m: MazeModel, lines: Seq<Seq<char>>, path: Seq<Location>, k: int) -> Seq<Seq<char>>
    decreases k,
{
    if k <= 0 {
        lines
    } else {
        mark_cell(m, mark_cells(m, lines, path, k - 1), path, k - 1)
    }
}

/// The drawing with `path` drawn over it: its segments first, then its cells.
pub open spec fn overlay(m: MazeModel, lines: Seq<Seq<char>>, path: Seq<Location>) -> Seq<Seq<char>> {
    if path.len() == 0 {
        lines
    } else {
        mark_cells(m, draw_segments(lines, path, path.len() - 1), path, path.len() as int)
    }
}

/// The game screen: the route drawn over the maze, the lower copies of the
/// start and finish markers blanked, and `@` below the center of the player's
/// cell.
pub open spec fn game_lines(m: MazeModel, path: Seq<Location>, player: Location) -> Seq<Seq<char>> {
    let lines = clear_marker(m, clear_marker(m, overlay(m, base_lines(m), path), m.start()), m.finish());
    let (cr, cc) = render_center(player);
    if m.in_bounds(player) && cr + 1 < lines.len() && cc < lines[cr + 1].len() {
        set_char(lines, cr + 1, cc, '@')
    } else {
        lines
    }
}

/// The line added below the game screen after a blocked move.
pub open spec fn blocked_message() -> Seq<char> {
    "Blocked by wall. Try a different direction.\n"@
}

/// The drawing has `1 + 3 * height` lines of `1 + 6 * width` characters.
pub proof fn lemma_base_uniform(m: MazeModel)
    ensures
        uniform(base_lines(m), line_count(m) as int, line_width(m) as int),
{
}

/// The drawing of a maze has `1 + 3 * height` lines of `1 + 6 * width`
/// characters, framed by the corners `╔`, `╗`, `╚` and `╝`.
pub proof fn lemma_render_frame(m: MazeModel)
    requires
        m.width >= 1,
        m.height >= 1,
    ensures
        base_lines(m).len() == 1 + 3 * m.height,
        forall|r: int| 0 <= r < base_lines(m).len() ==> (#[trigger] base_lines(m)[r]).len() == 1 + 6 * m.width,
        base_lines(m)[0][0] == '╔',
        base_lines(m)[0][6 * m.width as int] == '╗',
        base_lines(m)[3 * m.height as int][0] == '╚',
        base_lines(m)[3 * m.height as int][6 * m.width as int] == '╝',
{
    lemma_block(m.width - 1, 5, 6);
    lemma_block(m.height - 1, 2, 3);
}

/// Splits a line index into its row of cells and the line within the row, and
/// a column index into its cell and the column within the cell.
proof fn lemma_split(r: int, c: int)
    requires
        r >= 1,
        c >= 1,
    ensures
        r - 1 == 3 * ((r - 1) / 3) + (r - 1) % 3,
        0 <= (r - 1) % 3 < 3,
        c - 1 == 6 * ((c - 1) / 6) + (c - 1) % 6,
        0 <= (c - 1) % 6 < 6,
{
    lemma_fundamental_div_mod(r - 1, 3);
    lemma_fundamental_div_mod(c - 1, 6);
}

/// In the drawing of a maze, `S` stands exactly in the middle of the start
/// cell, on both of its inner lines.
pub proof fn lemma_render_start_marker(m: MazeModel, r: int, c: int)
    requires
        m.width >= 1,
        m.height >= 1,
        0 <= r < 1 + 3 * m.height,
        0 <= c < 1 + 6 * m.width,
    ensures
        base_lines(m)[r][c] == 'S' <==> (r == 1 || r == 2) && c == 3,
{
    if r >= 1 && c >= 1 {
        lemma_split(r, c);
    }
    lemma_block(0, 2, 6);
    lemma_block(0, 0, 3);
    lemma_block(0, 1, 3);
}

/// In the drawing of a maze with more than one cell, `F` stands exactly in the
/// middle of the finish cell, on both of its inner lines.
pub proof fn lemma_render_finish_marker(m: MazeModel, r: int, c: int)
    requires
        m.width >= 1,
        m.height >= 1,
        m.width > 1 || m.height > 1,
        0 <= r < 1 + 3 * m.height,
        0 <= c < 1 + 6 * m.width,
    ensures
        base_lines(m)[r][c] == 'F' <==> (r == 3 * m.height - 2 || r == 3 * m.height - 1) && c == 6 * m.width - 3,
{
    if r >= 1 && c >= 1 {
        lemma_split(r, c);
    }
    lemma_block(m.width - 1, 2, 6);
    lemma_block(m.height - 1, 0, 3);
    lemma_block(m.height - 1, 1, 3);
}

/// The drawing shows the topology: on both inner lines of row `y`, the column
/// after cell `x` is blank exactly when its east wall is open; on the line
/// below, the five columns under cell `x` are blank exactly when its south wall
/// is open, and `═` otherwise.
pub proof fn lemma_render_walls(m: MazeModel, x: int, y: int)
    requires
        0 <= x < m.width,
        0 <= y < m.height,
    ensures
        base_lines(m)[1 + 3 * y][6 + 6 * x] == if m.east_open(x, y) { ' ' } else { '║' },
        base_lines(m)[2 + 3 * y][6 + 6 * x] == if m.east_open(x, y) { ' ' } else { '║' },
        forall|k: int| 0 <= k < 5 ==> #[trigger] base_lines(m)[3 + 3 * y][1 + 6 * x + k] == if m.south_open(x, y) {
            ' '
        } else {
            '═'
        },
{
    lemma_block(x, 5, 6);
    lemma_block(y, 0, 3);
    lemma_block(y, 1, 3);
    lemma_block(y, 2, 3);
    assert forall|k: int| 0 <= k < 5 implies #[trigger] base_lines(m)[3 + 3 * y][1 + 6 * x + k] == if m.south_open(x, y) {
        ' '
    } else {
        '═'
    } by {
        lemma_block(x, k, 6);
    }
}

/// A segment between two neighbouring cells of a maze fits in its drawing.
proof fn lemma_step_fits(m: MazeModel, a: Location, b: Location)
    requires
        m.width >= 1,
        m.height >= 1,
        dimensions_fit(m.width as int, m.height as int),
        m.step(a, b),
    ensures
        segment_fits(line_count(m) as int, line_width(m) as int, a, b),
{
}

/// Every walk of a maze, in particular the route that `solve` returns and a
/// game's trail, can be drawn over it.
pub proof fn lemma_walk_fits(m: MazeModel, p: Seq<Location>)
    requires
        m.width >= 1,
        m.height >= 1,
        dimensions_fit(m.width as int, m.height as int),
        m.is_walk(p),
    ensures
        path_fits(m, p),
{
    assert forall|i: int| 0 <= i < p.len() - 1 implies #[trigger] window_fits(m, p, i) by {
        assert(m.walk_step(p, i));
        lemma_step_fits(m, p[i], p[i + 1]);
    }
}

/// A segment between two cells of a maze fits in its drawing.
proof fn lemma_cells_fit(m: MazeModel, a: Location, b: Location)
    requires
        dimensions_fit(m.width as int, m.height as int),
        m.in_bounds(a),
        m.in_bounds(b),
    ensures
        segment_fits(line_count(m) as int, line_width(m) as int, a, b),
{
}

/// Every path whose cells all lie in a maze can be drawn over it.
pub proof fn lemma_in_bounds_path_fits(m: MazeModel, p: Seq<Location>)
    requires
        dimensions_fit(m.width as int, m.height as int),
        forall|i: int| 0 <= i < p.len() ==> m.in_bounds(#[trigger] p[i]),
    ensures
        path_fits(m, p),
{
    assert forall|i: int| 0 <= i < p.len() - 1 implies #[trigger] window_fits(m, p, i) by {
        lemma_cells_fit(m, p[i], p[i + 1]);
    }
}

/// Drawing a segment that fits keeps the shape of the drawing.
proof fn lemma_segment_uniform(lines: Seq<Seq<char>>, n: int, w: int, a: Location, b: Location)
    requires
        uniform(lines, n, w),
        segment_fits(n, w, a, b),
    ensures
        uniform(draw_segment(lines, a, b), n, w),
{
}

proof fn lemma_segments_uniform(m: MazeModel, p: Seq<Location>, k: int)
    requires
        path_fits(m, p),
        0 <= k < p.len(),
    ensures
        uniform(draw_segments(base_lines(m), p, k), line_count(m) as int, line_width(m) as int),
    decreases k,
{
    if k > 0 {
        lemma_segments_uniform(m, p, k - 1);
        assert(window_fits(m, p, k - 1));
        lemma_segment_uniform(
            draw_segments(base_lines(m), p, k - 1),
            line_count(m) as int,
            line_width(m) as int,
            p[k - 1],
            p[k],
        );
    }
}

proof fn lemma_marks_uniform(m: MazeModel, lines: Seq<Seq<char>>, p: Seq<Location>, k: int)
    requires
        uniform(lines, line_count(m) as int, line_width(m) as int),
        0 <= k <= p.len(),
    ensures
        uniform(mark_cells(m, lines, p, k), line_count(m) as int, line_width(m) as int),
    decreases k,
{
    if k > 0 {
        lemma_marks_uniform(m, lines, p, k - 1);
    }
}

/// Drawn over a maze, a path that fits keeps the shape of the drawing: as many
/// lines, each as long.
pub proof fn lemma_overlay_uniform(m: MazeModel, p: Seq<Location>)
    requires
        path_fits(m, p),
    ensures
        uniform(overlay(m, base_lines(m), p), line_count(m) as int, line_width(m) as int),
{
    if p.len() > 0 {
        lemma_segments_uniform(m, p, p.len() - 1);
        lemma_marks_uniform(m, draw_segments(base_lines(m), p, p.len() - 1), p, p.len() as int);
    }
}

/// Extending `Seq::new(n, f)` with `f(n)` gives `Seq::new(n + 1, f)`.
proof fn lemma_push_new<A>(s: Seq<A>, f: spec_fn(int) -> A, a: A)
    requires
        s == Seq::new(s.len(), f),
        a == f(s.len() as int),
    ensures
        s.push(a) == Seq::new(s.len() + 1, f),
{
    assert(s.push(a) =~= Seq::new(s.len() + 1, f));
}

/// `6 * x + k` splits into `x` blocks of six and `k` more.
pub(crate) proof fn lemma_block(x: int, k: int, d: int)
    requires
        0 <= k < d,
    ensures
        (d * x + k) / d == x,
        (d * x + k) % d == k,
{
    assert(d * x == x * d) by (nonlinear_arith);
    lemma_fundamental_div_mod_converse(d * x + k, d, x, k);
}

/// Writes `ch` at line `r`, column `c` of `rows`.
fn put_char(rows: &mut Vec<Vec<char>>, r: usize, c: usize, ch: char)
    requires
        r < old(rows)@.len(),
        c < old(rows)@[r as int]@.len(),
    ensures
        lines_view(final(rows)@) == set_char(lines_view(old(rows)@), r as int, c as int, ch),
{
    rows[r][c] = ch;
    proof {
        assert(lines_view(rows@) =~= set_char(lines_view(old(rows)@), r as int, c as int, ch)) by {
            assert(lines_view(rows@)[r as int] =~= lines_view(old(rows)@)[r as int].update(c as int, ch));
        }
    }
}

impl Maze {
    /// The top border line.
    fn top_line(&self) -> (line: Vec<char>)
        requires
            dimensions_fit(self@.width as int, self@.height as int),
        ensures
            line@ == Seq::new(line_width(self@), |c: int| top_char(self@, c)),
    {
        proof {
            use_type_invariant(self);
            self.lemma_model();
        }
        let ghost m = self@;
        let ghost f = |c: int| top_char(m, c);
        let w = self.size.width;
        let mut line: Vec<char> = Vec::new();
        line.push(TOP_LEFT_CORNER);
        assert(line@ =~= Seq::new(1, f));
        let mut i: usize = 0;
        while i < w
            invariant
                m == self@,
                f == (|c: int| top_char(m, c)),
                w == m.width,
                i <= w,
                line@.len() == 1 + 6 * i,
                line@ == Seq::new(line@.len(), f),
                6 * w + 1 <= usize::MAX,
            decreases w - i,
        {
            let is_last_cell = i == w - 1;
            let mut k: usize = 0;
            while k < 5
                invariant
                    m == self@,
                    f == (|c: int| top_char(m, c)),
                    w == m.width,
                    i < w,
                    k <= 5,
                    line@.len() == 1 + 6 * i + k,
                    line@ == Seq::new(line@.len(), f),
                decreases 5 - k,
            {
                proof {
                    lemma_block(i as int, k as int, 6);
                    lemma_push_new(line@, f, WALL_SEGMENT);
                }
                line.push(WALL_SEGMENT);
                k = k + 1;
            }
            proof {
                lemma_block(i as int, 5, 6);
                lemma_push_new(line@, f, if is_last_cell { TOP_RIGHT_CORNER } else { TOP_T_JUNCTION });
            }
            line.push(if is_last_cell { TOP_RIGHT_CORNER } else { TOP_T_JUNCTION });
            i = i + 1;
        }
        line
    }

    /// The line that shows the inside of row `y`.
    fn body_line(&self, y: usize) -> (line: Vec<char>)
        requires
            dimensions_fit(self@.width as int, self@.height as int),
            y < self@.height,
        ensures
            line@ == Seq::new(line_width(self@), |c: int| body_char(self@, y as int, c)),
    {
        proof {
            use_type_invariant(self);
            self.lemma_model();
        }
        let ghost m = self@;
        let ghost f = |c: int| body_char(m, y as int, c);
        let w = self.size.width;
        let row = &self.cells[y];
        let mut line: Vec<char> = Vec::new();
        line.push(LEFT_WALL);
        assert(line@ =~= Seq::new(1, f));
        let mut x: usize = 0;
        while x < w
            invariant
                m == self@,
                f == (|c: int| body_char(m, y as int, c)),
                w == m.width,
                y < m.height,
                *row == self.cells@[y as int],
                row@.len() == w,
                forall|i: int| 0 <= i < w ==> {
                    &&& (#[trigger] row@[i]).wf()
                    &&& row@[i].location == Location { x: i as usize, y }
                    &&& row@[i].maze_size == self.size
                    &&& row@[i].can_exit_east == m.east_open(i, y as int)
                },
                self.size.width == m.width,
                self.size.height == m.height,
                x <= w,
                line@.len() == 1 + 6 * x,
                line@ == Seq::new(line@.len(), f),
                6 * w + 1 <= usize::MAX,
            decreases w - x,
        {
            let cell = &row[x];
            let center = cell.get_center_char();
            let wall = if cell.can_exit_east { ' ' } else { RIGHT_WALL };
            let pieces = [' ', ' ', center, ' ', ' ', wall];
            let mut k: usize = 0;
            while k < 6
                invariant
                    m == self@,
                    f == (|c: int| body_char(m, y as int, c)),
                    w == m.width,
                    x < w,
                    k <= 6,
                    line@.len() == 1 + 6 * x + k,
                    line@ == Seq::new(line@.len(), f),
                    pieces@ == seq![' ', ' ', center, ' ', ' ', wall],
                    center == center_marker(m, x as int, y as int),
                    wall == if m.east_open(x as int, y as int) { ' ' } else { '║' },
                decreases 6 - k,
            {
                proof {
                    lemma_block(x as int, k as int, 6);
                    lemma_push_new(line@, f, pieces@[k as int]);
                }
                line.push(pieces[k]);
                k = k + 1;
            }
            x = x + 1;
        }
        line
    }

    /// The line below row `y`: its south walls and the junctions between cells.
    fn border_line(&self, y: usize) -> (line: Vec<char>)
        requires
            dimensions_fit(self@.width as int, self@.height as int),
            y < self@.height,
        ensures
            line@ == Seq::new(line_width(self@), |c: int| border_char(self@, y as int, c)),
    {
        proof {
            use_type_invariant(self);
            self.lemma_model();
        }
        let ghost m = self@;
        let ghost f = |c: int| border_char(m, y as int, c);
        let w = self.size.width;
        let is_last_row = y == self.cells.len() - 1;
        let row = &self.cells[y];
        let mut line: Vec<char> = Vec::new();
        line.push(if is_last_row { BOTTOM_LEFT_CORNER } else { LEFT_T_JUNCTION });
        assert(line@ =~= Seq::new(1, f));
        let mut x: usize = 0;
        while x < w
            invariant
                m == self@,
                f == (|c: int| border_char(m, y as int, c)),
                w == m.width,
                y < m.height,
                *row == self.cells@[y as int],
                row@.len() == w,
                forall|i: int| 0 <= i < w ==> {
                    &&& (#[trigger] row@[i]).wf()
                    &&& row@[i].location == Location { x: i as usize, y }
                    &&& row@[i].maze_size == self.size
                    &&& row@[i].can_exit_south == m.south_open(i, y as int)
                },
                self.size.width == m.width,
                self.size.height == m.height,
                x <= w,
                line@.len() == 1 + 6 * x,
                line@ == Seq::new(line@.len(), f),
                6 * w + 1 <= usize::MAX,
            decreases w - x,
        {
            let cell = &row[x];
            let segment = if cell.can_exit_south { OPENING_SEGMENT } else { WALL_SEGMENT };
            let mut k: usize = 0;
            while k < 5
                invariant
                    m == self@,
                    f == (|c: int| border_char(m, y as int, c)),
                    w == m.width,
                    x < w,
                    k <= 5,
                    line@.len() == 1 + 6 * x + k,
                    line@ == Seq::new(line@.len(), f),
                    segment == if m.south_open(x as int, y as int) { ' ' } else { '═' },
                decreases 5 - k,
            {
                proof {
                    lemma_block(x as int, k as int, 6);
                    lemma_push_new(line@, f, segment);
                }
                line.push(segment);
                k = k + 1;
            }
            let corner = if cell.is_last_in_row() && cell.is_last_in_col() {
                BOTTOM_RIGHT_CORNER
            } else if cell.is_last_in_row() {
                RIGHT_T_JUNCTION
            } else if cell.is_last_in_col() {
                BOTTOM_T_JUNCTION
            } else {
                CENTER_JUNCTION
            };
            proof {
                lemma_block(x as int, 5, 6);
                lemma_push_new(line@, f, corner);
            }
            line.push(corner);
            x = x + 1;
        }
        line
    }

    /// The drawing of the maze without any route, line by line.
    fn base_lines(&self) -> (lines: Vec<Vec<char>>)
        requires
            dimensions_fit(self@.width as int, self@.height as int),
        ensures
            lines_view(lines@) == base_lines(self@),
    {
        proof {
            use_type_invariant(self);
            self.lemma_model();
        }
        let ghost m = self@;
        let ghost g = |r: int| Seq::new(line_width(m), |c: int| base_char(m, r, c));
        let h = self.size.height;
        let mut lines: Vec<Vec<char>> = Vec::new();
        let top = self.top_line();
        lines.push(top);
        assert(lines_view(lines@) =~= Seq::new(1, g)) by {
            assert(lines_view(lines@)[0] =~= g(0));
        }
        let mut y: usize = 0;
        while y < h
            invariant
                m == self@,
                g == (|r: int| Seq::new(line_width(m), |c: int| base_char(m, r, c))),
                h == m.height,
                y <= h,
                dimensions_fit(m.width as int, m.height as int),
                lines@.len() == 1 + 3 * y,
                lines_view(lines@) == Seq::new(lines@.len(), g),
            decreases h - y,
        {
            let body = self.body_line(y);
            let body_copy = body.clone();
            let border = self.border_line(y);
            proof {
                assert(body_copy@ =~= body@) by {
                    assert forall|i: int| 0 <= i < body@.len() implies body_copy@[i] == body@[i] by {
                        assert(cloned::<char>(body@[i], body_copy@[i]));
                    }
                }
                lemma_block(y as int, 0, 3);
                lemma_block(y as int, 1, 3);
                lemma_block(y as int, 2, 3);
                let n = lines@.len() as int;
                assert(g(n) =~= body@);
                assert(g(n + 1) =~= body@);
                assert(g(n + 2) =~= border@);
                lemma_push_new(lines_view(lines@), g, body@);
                assert(lines_view(lines@.push(body_copy)) =~= lines_view(lines@).push(body@));
            }
            lines.push(body_copy);
            proof {
                lemma_push_new(lines_view(lines@), g, body@);
                assert(lines_view(lines@.push(body)) =~= lines_view(lines@).push(body@));
            }
            lines.push(body);
            proof {
                lemma_push_new(lines_view(lines@), g, border@);
                assert(lines_view(lines@.push(border)) =~= lines_view(lines@).push(border@));
            }
            lines.push(border);
            y = y + 1;
        }
        lines
    }

    /// The text position of the middle of the drawing of `location`: line, column.
    fn get_render_center(&self, location: Location) -> (rc: (usize, usize))
        requires
            center_fits(location),
        ensures
            rc.0 == render_center(location).0,
            rc.1 == render_center(location).1,
    {
        let row = 1 + location.y * 3;
        let col = 3 + location.x * 6;
        (row, col)
    }

    /// The direction of the single step from `from` to `to`, if they are adjacent.
    fn direction_between(from: Location, to: Location) -> (d: Option<Direction>)
        requires
            center_fits(from),
            center_fits(to),
        ensures
            d == direction_between(from, to),
    {
        if from.x == to.x && from.y + 1 == to.y {
            Some(Direction::South)
        } else if from.x == to.x && from.y == to.y + 1 {
            Some(Direction::North)
        } else if from.y == to.y && from.x + 1 == to.x {
            Some(Direction::East)
        } else if from.y == to.y && from.x == to.x + 1 {
            Some(Direction::West)
        } else {
            None
        }
    }

    fn direction_mask(direction: Direction) -> (mask: u8)
        ensures
            mask == direction_mask(direction),
    {
        match direction {
            Direction::North => 0b0001,
            Direction::East => 0b0010,
            Direction::South => 0b0100,
            Direction::West => 0b1000,
        }
    }

    /// The line-drawing character that joins the directions set in `mask`.
    fn path_char_for_connections(mask: u8) -> (c: char)
        ensures
            c == path_char(mask),
    {
        match mask {
            0b0001 | 0b0100 | 0b0101 => '│',
            0b0010 | 0b1000 | 0b1010 => '─',
            0b0011 => '└',
            0b1001 => '┘',
            0b0110 => '┌',
            0b1100 => '┐',
            0b0111 => '├',
            0b1101 => '┤',
            0b1011 => '┴',
            0b1110 => '┬',
            0b1111 => '┼',
            _ => '•',
        }
    }

    /// Blanks the copy of an `S` or `F` below the center of cell `location`.
    fn clear_lower_marker_copy(&self, rows: &mut Vec<Vec<char>>, location: Location)
        requires
            dimensions_fit(self@.width as int, self@.height as int),
            uniform(lines_view(old(rows)@), line_count(self@) as int, line_width(self@) as int),
        ensures
            lines_view(final(rows)@) == clear_marker(self@, lines_view(old(rows)@), location),
            uniform(lines_view(final(rows)@), line_count(self@) as int, line_width(self@) as int),
    {
        proof {
            use_type_invariant(self);
            self.lemma_model();
        }
        if !self.is_in_bounds(location) {
            return;
        }
        let (center_row, center_col) = self.get_render_center(location);
        let lower_row = center_row + 1;
        if lower_row < rows.len() && center_col < rows[lower_row].len() && (rows[lower_row][center_col] == 'S'
            || rows[lower_row][center_col] == 'F') {
            put_char(rows, lower_row, center_col, ' ');
        }
    }

    /// Draws `path` over `rows`: first the segments between consecutive cells,
    /// then each cell of the path that lies in the maze.
    fn overlay_solution_path(&self, rows: &mut Vec<Vec<char>>, path: &Path)
        requires
            dimensions_fit(self@.width as int, self@.height as int),
            uniform(lines_view(old(rows)@), line_count(self@) as int, line_width(self@) as int),
            path_fits(self@, path@),
        ensures
            lines_view(final(rows)@) == overlay(self@, lines_view(old(rows)@), path@),
            uniform(lines_view(final(rows)@), line_count(self@) as int, line_width(self@) as int),
    {
        proof {
            use_type_invariant(self);
            self.lemma_model();
        }
        let ghost m = self@;
        let ghost n = line_count(m) as int;
        let ghost w = line_width(m) as int;
        let ghost start_lines = lines_view(rows@);
        if path.len() == 0 {
            return;
        }
        let mut i: usize = 0;
        while i < path.len() - 1
            invariant
                m == self@,
                n == line_count(m),
                w == line_width(m),
                path@.len() >= 1,
                i <= path@.len() - 1,
                path_fits(m, path@),
                uniform(lines_view(rows@), n, w),
                lines_view(rows@) == draw_segments(start_lines, path@, i as int),
            decreases path@.len() - 1 - i,
        {
            assert(window_fits(m, path@, i as int));
            self.draw_solution_segment(rows, path[i], path[i + 1]);
            i = i + 1;
        }
        let ghost segments = lines_view(rows@);
        let mut idx: usize = 0;
        while idx < path.len()
            invariant
                m == self@,
                m.well_formed(),
                dimensions_fit(m.width as int, m.height as int),
                n == line_count(m),
                w == line_width(m),
                idx <= path@.len(),
                path_fits(m, path@),
                uniform(lines_view(rows@), n, w),
                lines_view(rows@) == mark_cells(m, segments, path@, idx as int),
            decreases path@.len() - idx,
        {
            let location = path[idx];
            if !self.is_in_bounds(location) {
                idx = idx + 1;
                continue;
            }
            let (center_row, center_col) = self.get_render_center(location);
            self.clear_lower_marker_copy(rows, location);
            let mut connections = 0u8;
            if idx > 0 {
                assert(window_fits(m, path@, idx - 1));
                if let Some(direction) = Self::direction_between(location, path[idx - 1]) {
                    connections |= Self::direction_mask(direction);
                }
            }
            if idx + 1 < path.len() {
                assert(window_fits(m, path@, idx as int));
                if let Some(direction) = Self::direction_between(location, path[idx + 1]) {
                    connections |= Self::direction_mask(direction);
                }
            }
            let c = if self.is_start_location(location) {
                'S'
            } else if self.is_finish_location(location) {
                'F'
            } else {
                Self::path_char_for_connections(connections)
            };
            assert(lines_view(rows@)[center_row as int].len() == w);
            put_char(rows, center_row, center_col, c);
            idx = idx + 1;
        }
    }

    /// The drawing of the maze as text, with `path` drawn over it if given.
    fn as_str_with_solution(&self, path: Option<&Path>) -> (s: String)
        requires
            dimensions_fit(self@.width as int, self@.height as int),
            path matches Some(p) ==> path_fits(self@, p@),
        ensures
            s@ == text_of(
                match path {
                    Some(p) => overlay(self@, base_lines(self@), p@),
                    None => base_lines(self@),
                },
            ),
    {
        let mut rows = self.base_lines();
        proof {
            lemma_base_uniform(self@);
        }
        if let Some(path) = path {
            self.overlay_solution_path(&mut rows, path);
        }
        let mut output = String::new();
        push_lines(&mut output, &rows);
        output
    }

    fn as_str(&self) -> (s: String)
        requires
            dimensions_fit(self@.width as int, self@.height as int),
        ensures
            s@ == text_of(base_lines(self@)),
    {
        self.as_str_with_solution(None)
    }

    /// The drawing of the maze as text: a `║`/`═` frame, `S` in the start cell
    /// and `F` in the finish cell, each cell three lines high and six columns wide.
    pub fn to_string(&self) -> (s: String)
        requires
            dimensions_fit(self@.width as int, self@.height as int),
        ensures
            s@ == text_of(base_lines(self@)),
    {
        self.as_str()
    }

    /// The drawing of the maze as text with `path` drawn over it.
    pub fn render_with_solution(&self, path: &Path) -> (s: String)
        requires
            dimensions_fit(self@.width as int, self@.height as int),
            path_fits(self@, path@),
        ensures
            s@ == text_of(overlay(self@, base_lines(self@), path@)),
    {
        self.as_str_with_solution(Some(path))
    }

    /// The game screen as text: the trail `path` drawn over the maze, a single
    /// `S` and `F`, the player `@` and, if `show_error`, a line saying that the
    /// last move was blocked.
    pub fn render_game(&self, path: &Path, player: Location, show_error: bool) -> (s: String)
        requires
            dimensions_fit(self@.width as int, self@.height as int),
            path_fits(self@, path@),
        ensures
            s@ == text_of(game_lines(self@, path@, player)) + if show_error {
                blocked_message()
            } else {
                Seq::<char>::empty()
            },
    {
        proof {
            use_type_invariant(self);
            self.lemma_model();
            lemma_base_uniform(self@);
        }
        let mut rows = self.base_lines();
        self.overlay_solution_path(&mut rows, path);
        let start = Location { x: 0, y: 0 };
        let finish = Location { x: self.size.width - 1, y: self.size.height - 1 };
        self.clear_lower_marker_copy(&mut rows, start);
        self.clear_lower_marker_copy(&mut rows, finish);
        if self.is_in_bounds(player) {
            let (center_row, center_col) = self.get_render_center(player);
            let player_row = center_row + 1;
            if player_row < rows.len() && center_col < rows[player_row].len() {
                put_char(&mut rows, player_row, center_col, '@');
            }
        }
        let mut output = String::new();
        push_lines(&mut output, &rows);
        if show_error {
            output.append("Blocked by wall. Try a different direction.\n");
        }
        output
    }

    /// Draws the route segment from `from` to `to` into `rows`.
    fn draw_solution_segment(&self, rows: &mut Vec<Vec<char>>, from: Location, to: Location)
        requires
            uniform(lines_view(old(rows)@), line_count(self@) as int, line_width(self@) as int),
            segment_fits(line_count(self@) as int, line_width(self@) as int, from, to),
        ensures
            lines_view(final(rows)@) == draw_segment(lines_view(old(rows)@), from, to),
            uniform(lines_view(final(rows)@), line_count(self@) as int, line_width(self@) as int),
    {
        let ghost n = line_count(self@) as int;
        let ghost w = line_width(self@) as int;
        let ghost old_lines = lines_view(rows@);
        let (from_row, from_col) = self.get_render_center(from);
        let (to_row, to_col) = self.get_render_center(to);
        if from_row == to_row {
            let start = (if from_col < to_col { from_col } else { to_col }) + 1;
            let end = if from_col < to_col { to_col } else { from_col };
            if start < end {
                let mut col = start;
                proof {
                    assert(old_lines.update(
                        from_row as int,
                        Seq::new(w as nat, |c: int| if start <= c < col { '─' } else { old_lines[from_row as int][c] }),
                    ) =~= old_lines) by {
                        assert(Seq::new(w as nat, |c: int| if start <= c < col { '─' } else { old_lines[from_row as int][c] })
                            =~= old_lines[from_row as int]);
                    }
                }
                while col < end
                    invariant
                        start <= col <= end,
                        from_row < n,
                        end <= w,
                        lines_view(rows@) == old_lines.update(
                            from_row as int,
                            Seq::new(w as nat, |c: int| if start <= c < col { '─' } else { old_lines[from_row as int][c] }),
                        ),
                        uniform(old_lines, n, w),
                        uniform(lines_view(rows@), n, w),
                    decreases end - col,
                {
                    assert(lines_view(rows@)[from_row as int].len() == w);
                    put_char(rows, from_row, col, '─');
                    proof {
                        assert(lines_view(rows@) =~= old_lines.update(
                            from_row as int,
                            Seq::new(w as nat, |c: int| if start <= c < col + 1 { '─' } else { old_lines[from_row as int][c] }),
                        )) by {
                            assert(lines_view(rows@)[from_row as int] =~= Seq::new(
                                w as nat,
                                |c: int| if start <= c < col + 1 { '─' } else { old_lines[from_row as int][c] },
                            ));
                        }
                    }
                    col = col + 1;
                }
                proof {
                    assert(lines_view(rows@) =~= draw_segment(old_lines, from, to));
                }
            } else {
                proof {
                    assert(lines_view(rows@) =~= draw_segment(old_lines, from, to));
                }
            }
        } else if from_col == to_col {
            let start = (if from_row < to_row { from_row } else { to_row }) + 1;
            let end = if from_row < to_row { to_row } else { from_row };
            let mut row = start;
            proof {
                assert(Seq::new(
                    n as nat,
                    |r: int| if start <= r < row { old_lines[r].update(from_col as int, '│') } else { old_lines[r] },
                ) =~= old_lines);
                assert(lines_view(rows@) =~= old_lines);
            }
            while row < end && row < rows.len()
                invariant
                    start <= row,
                    rows@.len() == n,
                    start < min_of(end as int, n) ==> from_col < w,
                    row <= start || (row <= end && row <= n),
                    lines_view(rows@) == Seq::new(
                        n as nat,
                        |r: int| if start <= r < row { old_lines[r].update(from_col as int, '│') } else { old_lines[r] },
                    ),
                    uniform(old_lines, n, w),
                    uniform(lines_view(rows@), n, w),
                decreases n - row,
            {
                assert(lines_view(rows@)[row as int].len() == w);
                put_char(rows, row, from_col, '│');
                proof {
                    assert(lines_view(rows@) =~= Seq::new(
                        n as nat,
                        |r: int| if start <= r < row + 1 { old_lines[r].update(from_col as int, '│') } else { old_lines[r] },
                    ));
                }
                row = row + 1;
            }
            proof {
                assert(lines_view(rows@) =~= draw_segment(old_lines, from, to));
            }
        } else {
            proof {
                assert(lines_view(rows@) =~= draw_segment(old_lines, from, to));
            }
        }
    }
}

} // verus!
