//! Building a maze from a given topology, checked before it is accepted.
use vstd::prelude::*;

use super::{Cell, FromTopologyError, Maze, MazeSize};
use crate::topology::{Location, MazeModel};

verus! {

/// The rows of a table of booleans, as sequences.
pub open spec fn rows_view(v: Seq<Vec<bool>>) -> Seq<Seq<bool>> {
    Seq::new(v.len(), |i: int| v[i]@)
}

/// The index of the first row of `rows`, from `i` on, whose length is not `width`
/// (`rows.len()` if there is none).
pub open spec fn first_width_mismatch(rows: Seq<Seq<bool>>, width: int, i: int) -> int
    decreases rows.len() - i,
{
    if i >= rows.len() || i < 0 {
        rows.len() as int
    } else if rows[i].len() != width {
        i
    } else {
        first_width_mismatch(rows, width, i + 1)
    }
}

/// The index of the first row of `rows`, from `i` on, whose last entry (column
/// `width - 1`) is true (`rows.len()` if there is none).
pub open spec fn first_open_last_column(rows: Seq<Seq<bool>>, width: int, i: int) -> int
    decreases rows.len() - i,
{
    if i >= rows.len() || i < 0 {
        rows.len() as int
    } else if rows[i][width - 1] {
        i
    } else {
        first_open_last_column(rows, width, i + 1)
    }
}

/// The index of the first true entry of `row` from `i` on (`row.len()` if there is none).
pub open spec fn first_true(row: Seq<bool>, i: int) -> int
    decreases row.len() - i,
{
    if i >= row.len() || i < 0 {
        row.len() as int
    } else if row[i] {
        i
    } else {
        first_true(row, i + 1)
    }
}

/// What [`Maze::from_topology`] answers for a `width` by `height` maze whose
/// east walls are open where `east` is true and whose south walls are open
/// where `south` is true: the first problem found, checked in this order, or
/// the topology of the maze.
pub open spec fn topology_verdict(
    width: usize,
    height: usize,
    east: Seq<Seq<bool>>,
    south: Seq<Seq<bool>>,
) -> Result<MazeModel, FromTopologyError> {
    let model = MazeModel { width: width as nat, height: height as nat, east, south };
    if width < 2 || height < 2 {
        Err(FromTopologyError::InvalidDimensions)
    } else if east.len() != height {
        Err(FromTopologyError::EastOpenHeightMismatch)
    } else if south.len() != height {
        Err(FromTopologyError::SouthOpenHeightMismatch)
    } else if first_width_mismatch(east, width as int, 0) < height {
        Err(
            FromTopologyError::EastOpenRowWidthMismatch {
                row: first_width_mismatch(east, width as int, 0) as usize,
                expected: width,
            },
        )
    } else if first_width_mismatch(south, width as int, 0) < height {
        Err(
            FromTopologyError::SouthOpenRowWidthMismatch {
                row: first_width_mismatch(south, width as int, 0) as usize,
                expected: width,
            },
        )
    } else if first_open_last_column(east, width as int, 0) < height {
        Err(
            FromTopologyError::EastOpenRightBoundaryOpen {
                row: first_open_last_column(east, width as int, 0) as usize,
            },
        )
    } else if first_true(south[height - 1], 0) < width {
        Err(
            FromTopologyError::SouthOpenBottomBoundaryOpen {
                column: first_true(south[height - 1], 0) as usize,
            },
        )
    } else if !model.fully_connected() {
        Err(FromTopologyError::NotFullyConnected)
    } else {
        Ok(model)
    }
}


impl Maze {
    /// Builds a maze from its topology: `east_open[y][x]` tells whether the wall
    /// east of cell `(x, y)` is open, `south_open[y][x]` whether the wall south
    /// of it is. The input is refused with the first problem found: a width or
    /// height below 2, tables of the wrong shape, an open wall on the right or
    /// bottom boundary, or a cell that cannot be reached from the start.
    #[verifier::loop_isolation(false)]
    pub fn from_topology(
        width: usize,
        height: usize,
        east_open: Vec<Vec<bool>>,
        south_open: Vec<Vec<bool>>,
    ) -> (r: Result<Maze, FromTopologyError>)
        ensures
            match (r, topology_verdict(width, height, rows_view(east_open@), rows_view(south_open@))) {
                (Ok(maze), Ok(model)) => maze@ == model,
                (Err(e), Err(f)) => e == f,
                _ => false,
            },
            r matches Ok(maze) ==> maze@.fully_connected() && maze@.width == width && maze@.height == height,
    {
        let ghost east = rows_view(east_open@);
        let ghost south = rows_view(south_open@);
        if width < 2 || height < 2 {
            return Err(FromTopologyError::InvalidDimensions);
        }
        if east_open.len() != height {
            return Err(FromTopologyError::EastOpenHeightMismatch);
        }
        if south_open.len() != height {
            return Err(FromTopologyError::SouthOpenHeightMismatch);
        }
        let mut y: usize = 0;
        while y < height
            invariant
                east == rows_view(east_open@),
                east.len() == height,
                y <= height,
                first_width_mismatch(east, width as int, 0) == first_width_mismatch(east, width as int, y as int),
            decreases height - y,
        {
            if east_open[y].len() != width {
                return Err(FromTopologyError::EastOpenRowWidthMismatch { row: y, expected: width });
            }
            y = y + 1;
        }
        let mut y: usize = 0;
        while y < height
            invariant
                south == rows_view(south_open@),
                south.len() == height,
                y <= height,
                first_width_mismatch(south, width as int, 0) == first_width_mismatch(south, width as int, y as int),
            decreases height - y,
        {
            if south_open[y].len() != width {
                return Err(FromTopologyError::SouthOpenRowWidthMismatch { row: y, expected: width });
            }
            y = y + 1;
        }
        assert(first_width_mismatch(east, width as int, 0) == height);
        assert(first_width_mismatch(south, width as int, 0) == height);
        proof {
            lemma_first_width_mismatch(east, width as int, 0);
            lemma_first_width_mismatch(south, width as int, 0);
        }
        let mut y: usize = 0;
        while y < height
            invariant
                east == rows_view(east_open@),
                east.len() == height,
                forall|j: int| 0 <= j < height ==> (#[trigger] east[j]).len() == width,
                y <= height,
                width >= 2,
                first_open_last_column(east, width as int, 0) == first_open_last_column(east, width as int, y as int),
            decreases height - y,
        {
            if east_open[y][width - 1] {
                return Err(FromTopologyError::EastOpenRightBoundaryOpen { row: y });
            }
            y = y + 1;
        }
        let mut x: usize = 0;
        while x < width
            invariant
                south == rows_view(south_open@),
                south.len() == height,
                height >= 2,
                forall|j: int| 0 <= j < height ==> (#[trigger] south[j]).len() == width,
                x <= width,
                first_true(south[height - 1], 0) == first_true(south[height - 1], x as int),
            decreases width - x,
        {
            if south_open[height - 1][x] {
                return Err(FromTopologyError::SouthOpenBottomBoundaryOpen { column: x });
            }
            x = x + 1;
        }
        proof {
            lemma_first_open_last_column(east, width as int, 0);
            lemma_first_true(south[height - 1], 0);
        }
        let maze_size = MazeSize { width, height };
        let mut cells: Vec<Vec<Cell>> = Vec::new();
        let mut y: usize = 0;
        while y < height
            invariant
                east == rows_view(east_open@),
                south == rows_view(south_open@),
                east.len() == height,
                south.len() == height,
                forall|j: int| 0 <= j < height ==> (#[trigger] east[j]).len() == width,
                forall|j: int| 0 <= j < height ==> (#[trigger] south[j]).len() == width,
                maze_size == (MazeSize { width, height }),
                y <= height,
                cells@.len() == y,
                forall|j: int| 0 <= j < y ==> (#[trigger] cells@[j])@.len() == width,
                forall|i: int, j: int|
                    0 <= i < width && 0 <= j < y ==> {
                        let c = #[trigger] cells@[j]@[i];
                        &&& c.location == Location { x: i as usize, y: j as usize }
                        &&& c.maze_size == maze_size
                        &&& c.can_exit_east == east[j][i]
                        &&& c.can_exit_south == south[j][i]
                    },
            decreases height - y,
        {
            let mut row: Vec<Cell> = Vec::new();
            let mut x: usize = 0;
            while x < width
                invariant
                    east == rows_view(east_open@),
                    south == rows_view(south_open@),
                    east.len() == height,
                    south.len() == height,
                    forall|j: int| 0 <= j < height ==> (#[trigger] east[j]).len() == width,
                    forall|j: int| 0 <= j < height ==> (#[trigger] south[j]).len() == width,
                    maze_size == (MazeSize { width, height }),
                    y < height,
                    x <= width,
                    row@.len() == x,
                    forall|i: int|
                        0 <= i < x ==> {
                            let c = #[trigger] row@[i];
                            &&& c.location == Location { x: i as usize, y }
                            &&& c.maze_size == maze_size
                            &&& c.can_exit_east == east[y as int][i]
                            &&& c.can_exit_south == south[y as int][i]
                        },
                decreases width - x,
            {
                assert(east[y as int].len() == width && south[y as int].len() == width);
                row.push(
                    Cell {
                        maze_size,
                        location: Location { x, y },
                        can_exit_south: south_open[y][x],
                        can_exit_east: east_open[y][x],
                    },
                );
                x = x + 1;
            }
            cells.push(row);
            y = y + 1;
        }
        let maze = Maze { size: maze_size, cells };
        let ghost model = MazeModel { width: width as nat, height: height as nat, east, south };
        assert forall|j: int| 0 <= j < height implies #[trigger] maze@.east[j] =~= east[j] by {}
        assert forall|j: int| 0 <= j < height implies #[trigger] maze@.south[j] =~= south[j] by {}
        assert(maze@.east =~= east);
        assert(maze@.south =~= south);
        assert(maze@ == model);
        if !maze.is_fully_connected() {
            return Err(FromTopologyError::NotFullyConnected);
        }
        Ok(maze)
    }
}

proof fn lemma_first_width_mismatch(rows: Seq<Seq<bool>>, width: int, i: int)
    requires
        0 <= i <= rows.len(),
        first_width_mismatch(rows, width, i) == rows.len(),
    ensures
        forall|j: int| i <= j < rows.len() ==> (#[trigger] rows[j]).len() == width,
    decreases rows.len() - i,
{
    if i < rows.len() {
        lemma_first_width_mismatch(rows, width, i + 1);
    }
}

proof fn lemma_first_open_last_column(rows: Seq<Seq<bool>>, width: int, i: int)
    requires
        0 <= i <= rows.len(),
        first_open_last_column(rows, width, i) == rows.len(),
    ensures
        forall|j: int| i <= j < rows.len() ==> !(#[trigger] rows[j])[width - 1],
    decreases rows.len() - i,
{
    if i < rows.len() {
        lemma_first_open_last_column(rows, width, i + 1);
    }
}

proof fn lemma_first_true(row: Seq<bool>, i: int)
    requires
        0 <= i <= row.len(),
        first_true(row, i) == row.len(),
    ensures
        forall|j: int| i <= j < row.len() ==> !#[trigger] row[j],
    decreases row.len() - i,
{
    if i < row.len() {
        lemma_first_true(row, i + 1);
    }
}

/// `first_width_mismatch` finds the first row, from `i` on, of the wrong length.
proof fn lemma_first_width_mismatch_finds(rows: Seq<Seq<bool>>, width: int, i: int)
    requires
        0 <= i <= rows.len(),
    ensures
        i <= first_width_mismatch(rows, width, i) <= rows.len(),
        first_width_mismatch(rows, width, i) < rows.len() ==> rows[first_width_mismatch(rows, width, i)].len()
            != width,
        forall|j: int| i <= j < first_width_mismatch(rows, width, i) ==> (#[trigger] rows[j]).len() == width,
    decreases rows.len() - i,
{
    if i < rows.len() {
        lemma_first_width_mismatch_finds(rows, width, i + 1);
    }
}

/// `first_open_last_column` finds the first row, from `i` on, whose last entry is true.
proof fn lemma_first_open_last_column_finds(rows: Seq<Seq<bool>>, width: int, i: int)
    requires
        0 <= i <= rows.len(),
    ensures
        i <= first_open_last_column(rows, width, i) <= rows.len(),
        first_open_last_column(rows, width, i) < rows.len() ==> rows[first_open_last_column(rows, width, i)][width
            - 1],
        forall|j: int| i <= j < first_open_last_column(rows, width, i) ==> !(#[trigger] rows[j])[width - 1],
    decreases rows.len() - i,
{
    if i < rows.len() {
        lemma_first_open_last_column_finds(rows, width, i + 1);
    }
}

/// `first_true` finds the first true entry of `row` from `i` on.
proof fn lemma_first_true_finds(row: Seq<bool>, i: int)
    requires
        0 <= i <= row.len(),
    ensures
        i <= first_true(row, i) <= row.len(),
        first_true(row, i) < row.len() ==> row[first_true(row, i)],
        forall|j: int| i <= j < first_true(row, i) ==> !#[trigger] row[j],
    decreases row.len() - i,
{
    if i < row.len() {
        lemma_first_true_finds(row, i + 1);
    }
}

/// What each answer for a topology means. The maze is accepted exactly when
/// its size is at least 2 by 2, both tables have one row of `width` entries
/// per maze row, the walls on the right and bottom boundaries are closed, and
/// every cell can be reached from the start; it is then that topology. Each
/// refusal names the first problem: a too small size, a table with the wrong
/// number of rows, the first row of the wrong length (east table first), the
/// first row with an open right boundary wall, the first column with an open
/// bottom boundary wall, or a cell that cannot be reached.
pub proof fn lemma_topology_verdict_meaning(
    width: usize,
    height: usize,
    east: Seq<Seq<bool>>,
    south: Seq<Seq<bool>>,
)
    ensures
        ({
            let dims_ok = width >= 2 && height >= 2;
            let heights_ok = east.len() == height && south.len() == height;
            let east_rows_ok = forall|y: int| 0 <= y < height ==> (#[trigger] east[y]).len() == width;
            let south_rows_ok = forall|y: int| 0 <= y < height ==> (#[trigger] south[y]).len() == width;
            let right_closed = forall|y: int| 0 <= y < height ==> !(#[trigger] east[y])[width - 1];
            let bottom_closed = forall|x: int| 0 <= x < width ==> !#[trigger] south[height - 1][x];
            let model = MazeModel { width: width as nat, height: height as nat, east, south };
            match topology_verdict(width, height, east, south) {
                Ok(accepted) => {
                    &&& accepted == model
                    &&& dims_ok && heights_ok && east_rows_ok && south_rows_ok && right_closed && bottom_closed
                    &&& model.well_formed()
                    &&& model.fully_connected()
                },
                Err(FromTopologyError::InvalidDimensions) => !dims_ok,
                Err(FromTopologyError::EastOpenHeightMismatch) => dims_ok && east.len() != height,
                Err(FromTopologyError::SouthOpenHeightMismatch) => dims_ok && east.len() == height && south.len()
                    != height,
                Err(FromTopologyError::EastOpenRowWidthMismatch { row, expected }) => {
                    &&& dims_ok && heights_ok
                    &&& expected == width
                    &&& row < height
                    &&& east[row as int].len() != width
                    &&& forall|y: int| 0 <= y < row ==> (#[trigger] east[y]).len() == width
                },
                Err(FromTopologyError::SouthOpenRowWidthMismatch { row, expected }) => {
                    &&& dims_ok && heights_ok && east_rows_ok
                    &&& expected == width
                    &&& row < height
                    &&& south[row as int].len() != width
                    &&& forall|y: int| 0 <= y < row ==> (#[trigger] south[y]).len() == width
                },
                Err(FromTopologyError::EastOpenRightBoundaryOpen { row }) => {
                    &&& dims_ok && heights_ok && east_rows_ok && south_rows_ok
                    &&& row < height
                    &&& east[row as int][width - 1]
                    &&& forall|y: int| 0 <= y < row ==> !(#[trigger] east[y])[width - 1]
                },
                Err(FromTopologyError::SouthOpenBottomBoundaryOpen { column }) => {
                    &&& dims_ok && heights_ok && east_rows_ok && south_rows_ok && right_closed
                    &&& column < width
                    &&& south[height - 1][column as int]
                    &&& forall|x: int| 0 <= x < column ==> !#[trigger] south[height - 1][x]
                },
                Err(FromTopologyError::NotFullyConnected) => {
                    &&& dims_ok && heights_ok && east_rows_ok && south_rows_ok && right_closed && bottom_closed
                    &&& !model.fully_connected()
                },
            }
        }),
{
    if width >= 2 && height >= 2 && east.len() == height && south.len() == height {
        lemma_first_width_mismatch_finds(east, width as int, 0);
        lemma_first_width_mismatch_finds(south, width as int, 0);
        if first_width_mismatch(east, width as int, 0) == height && first_width_mismatch(south, width as int, 0)
            == height {
            lemma_first_open_last_column_finds(east, width as int, 0);
            lemma_first_true_finds(south[height - 1], 0);
        }
    }
}

} // verus!
