//! The maze grid: a rectangle of squares, each a word of flag bits.
use vstd::prelude::*;

verus! {

/// Wall line bits: which of a square's four neighbours it is joined to by a wall.
pub const NORTH_WALL: u32 = 0b0001;
pub const EAST_WALL: u32 = 0b0010;
pub const SOUTH_WALL: u32 = 0b0100;
pub const WEST_WALL: u32 = 0b1000;
/// Set on a square once a builder has carved it.
pub const BUILDER_BIT: u32 = 0b0001_0000_0000_0000;
/// Set on every square that is open floor rather than wall.
pub const PATH_BIT: u32 = 0b0010_0000_0000_0000;
/// Set on a square once a distance measurement has reached it.
pub const MEASURE: u32 = 0b0100_0000_0000_0000;
/// Set on a square once a painter has coloured it.
pub const PAINT: u32 = 0b1000_0000_0000_0000;

/// A position in the grid, row first.
#[derive(Debug, Clone, Copy, PartialEq, Eq, Structural, Hash)]
pub struct Point {
    pub row: i32,
    pub col: i32,
}

/// The mathematical grid: one sequence of squares per row.
pub type Grid = Seq<Seq<u32>>;

pub open spec fn grid_rows(g: Grid) -> int {
    g.len() as int
}

pub open spec fn grid_cols(g: Grid) -> int {
    if g.len() > 0 {
        g[0].len() as int
    } else {
        0
    }
}

/// A grid is a non-empty rectangle whose sides fit the `i32` coordinates.
pub open spec fn grid_wf(g: Grid) -> bool {
    &&& 1 <= g.len() <= i32::MAX
    &&& 1 <= g[0].len() <= i32::MAX
    &&& forall|r: int| 0 <= r < g.len() ==> #[trigger] g[r].len() == g[0].len()
}

pub open spec fn in_grid(g: Grid, r: int, c: int) -> bool {
    0 <= r < grid_rows(g) && 0 <= c < grid_cols(g)
}

pub open spec fn same_shape(g: Grid, h: Grid) -> bool {
    &&& g.len() == h.len()
    &&& forall|r: int| 0 <= r < g.len() ==> #[trigger] h[r].len() == g[r].len()
}

pub open spec fn is_built(v: u32) -> bool {
    v & BUILDER_BIT != 0
}

pub open spec fn is_path(v: u32) -> bool {
    v & PATH_BIT != 0
}

/// The walls a freshly walled square at `(r, c)` has: one towards each neighbour inside the grid.
pub open spec fn wall_line(rows: int, cols: int, r: int, c: int) -> u32 {
    (if r > 0 { NORTH_WALL } else { 0u32 }) | (if r + 1 < rows { SOUTH_WALL } else { 0u32 }) | (
    if c > 0 { WEST_WALL } else { 0u32 }) | (if c + 1 < cols { EAST_WALL } else { 0u32 })
}

/// A grid of the given shape in which every square is wall, joined to all its neighbours.
pub open spec fn walled_grid(rows: int, cols: int) -> Grid {
    Seq::new(rows as nat, |r: int| Seq::new(cols as nat, |c: int| wall_line(rows, cols, r, c)))
}

/// The maze itself.
pub struct Maze {
    pub grid: Vec<Vec<u32>>,
}

impl View for Maze {
    type V = Grid;

    open spec fn view(&self) -> Grid {
        self.grid@.map_values(|row: Vec<u32>| row@)
    }
}

impl Maze {
    pub open spec fn wf(&self) -> bool {
        grid_wf(self@)
    }

    /// A maze of `rows` by `cols` squares, every one of them zero.
    pub fn new(rows: i32, cols: i32) -> (m: Maze)
        requires
            rows >= 1,
            cols >= 1,
        ensures
            m.wf(),
            grid_rows(m@) == rows,
            grid_cols(m@) == cols,
            forall|r: int, c: int| in_grid(m@, r, c) ==> #[trigger] m@[r][c] == 0,
    {
        let mut grid: Vec<Vec<u32>> = Vec::new();
        let mut r: i32 = 0;
        while r < rows
            invariant
                cols >= 1,
                0 <= r <= rows,
                grid@.len() == r,
                forall|i: int| 0 <= i < r ==> #[trigger] grid@[i]@ == Seq::new(cols as nat, |c: int| 0u32),
            decreases rows - r,
        {
            let mut row: Vec<u32> = Vec::new();
            let mut c: i32 = 0;
            while c < cols
                invariant
                    cols >= 1,
                    0 <= c <= cols,
                    row@ == Seq::new(c as nat, |j: int| 0u32),
                decreases cols - c,
            {
                row.push(0);
                c = c + 1;
                assert(row@ =~= Seq::new(c as nat, |j: int| 0u32));
            }
            grid.push(row);
            r = r + 1;
        }
        let m = Maze { grid };
        assert(m@[0].len() == cols);
        m
    }

    pub fn row_size(&self) -> (n: i32)
        requires
            self.wf(),
        ensures
            n == grid_rows(self@),
    {
        self.grid.len() as i32
    }

    pub fn col_size(&self) -> (n: i32)
        requires
            self.wf(),
        ensures
            n == grid_cols(self@),
    {
        self.grid[0].len() as i32
    }

    pub fn get(&self, row: i32, col: i32) -> (v: u32)
        requires
            self.wf(),
            in_grid(self@, row as int, col as int),
        ensures
            v == self@[row as int][col as int],
    {
        assert(self@[row as int] == self.grid@[row as int]@);
        assert(self@[row as int].len() == self@[0].len());
        self.grid[row as usize][col as usize]
    }

    pub fn set(&mut self, row: i32, col: i32, v: u32)
        requires
            old(self).wf(),
            in_grid(old(self)@, row as int, col as int),
        ensures
            final(self).wf(),
            final(self)@ == old(self)@.update(row as int, old(self)@[row as int].update(col as int, v)),
    {
        assert(old(self)@[row as int] == old(self).grid@[row as int]@);
        assert(old(self)@[row as int].len() == old(self)@[0].len());
        self.grid[row as usize][col as usize] = v;
        assert(self@ =~= old(self)@.update(row as int, old(self)@[row as int].update(col as int, v)));
    }
}

/// Turns every square into wall joined to its neighbours, clearing every other bit.
pub fn fill_maze_with_walls(maze: &mut Maze)
    requires
        old(maze).wf(),
    ensures
        final(maze).wf(),
        final(maze)@ == walled_grid(grid_rows(old(maze)@), grid_cols(old(maze)@)),
{
    let rows = maze.row_size();
    let cols = maze.col_size();
    let ghost g0 = maze@;
    let mut r: i32 = 0;
    while r < rows
        invariant
            0 <= r <= rows,
            rows == grid_rows(g0),
            cols == grid_cols(g0),
            maze.wf(),
            same_shape(maze@, g0),
            forall|i: int, c: int|
                0 <= i < r && 0 <= c < cols ==> #[trigger] maze@[i][c] == wall_line(
                    rows as int,
                    cols as int,
                    i,
                    c,
                ),
        decreases rows - r,
    {
        let mut c: i32 = 0;
        while c < cols
            invariant
                0 <= r < rows,
                0 <= c <= cols,
                rows == grid_rows(g0),
                cols == grid_cols(g0),
                maze.wf(),
                same_shape(maze@, g0),
                forall|i: int, j: int|
                    ((0 <= i < r && 0 <= j < cols) || (i == r && 0 <= j < c))
                        ==> #[trigger] maze@[i][j] == wall_line(rows as int, cols as int, i, j),
            decreases cols - c,
        {
            let w = wall_line_at(rows, cols, r, c);
            maze.set(r, c, w);
            c = c + 1;
        }
        r = r + 1;
    }
    assert(maze@ =~~= walled_grid(rows as int, cols as int));
}

/// The walls of a freshly walled square.
pub fn wall_line_at(rows: i32, cols: i32, r: i32, c: i32) -> (w: u32)
    requires
        0 <= r < rows,
        0 <= c < cols,
    ensures
        w == wall_line(rows as int, cols as int, r as int, c as int),
{
    (if r > 0 { NORTH_WALL } else { 0u32 }) | (if r + 1 < rows { SOUTH_WALL } else { 0u32 }) | (
    if c > 0 { WEST_WALL } else { 0u32 }) | (if c + 1 < cols { EAST_WALL } else { 0u32 })
}

} // verus!
