//! What an animation shows while a maze is built and painted.
use vstd::prelude::*;
use crate::grid::{
    grid_cols, grid_rows, in_grid, is_path, Maze, Point, EAST_WALL, NORTH_WALL, PATH_BIT, SOUTH_WALL,
    WEST_WALL,
};

verus! {

/// The wall pieces of the hunter's laser across a row: a piece open to the right at the left
/// edge, horizontal pieces across, a piece open to the left at the right edge.
pub const WALL_UP_DOWN_RIGHT: u32 = 0b0111;
pub const WALL_UP_DOWN_LEFT: u32 = 0b1101;
pub const WALL_LEFT_RIGHT: u32 = 0b1010;

pub open spec fn laser_piece(cols: int, c: int) -> u32 {
    if c == cols - 1 {
        WALL_UP_DOWN_LEFT
    } else if c == 0 {
        WALL_UP_DOWN_RIGHT
    } else {
        WALL_LEFT_RIGHT
    }
}

/// The wall piece the hunter's laser shows in each column of a row `cols` squares wide (the
/// right edge piece drawn last, over the left one when the row is one square wide).
pub fn hunter_laser_pieces(cols: i32) -> (v: Vec<u32>)
    requires
        cols >= 1,
    ensures
        v@.len() == cols,
        forall|c: int| 0 <= c < cols ==> #[trigger] v@[c] == laser_piece(cols as int, c),
{
    let mut v: Vec<u32> = Vec::new();
    let mut c: i32 = 0;
    while c < cols
        invariant
            0 <= c <= cols,
            v@.len() == c,
            forall|j: int| 0 <= j < c ==> #[trigger] v@[j] == laser_piece(cols as int, j),
        decreases cols - c,
    {
        let piece = if c == cols - 1 {
            WALL_UP_DOWN_LEFT
        } else if c == 0 {
            WALL_UP_DOWN_RIGHT
        } else {
            WALL_LEFT_RIGHT
        };
        v.push(piece);
        c = c + 1;
    }
    v
}

/// For a mini-rendered laser on `row`: for each column, whether the square below, which shares
/// its character cell, is a path.
pub fn mini_laser_row(maze: &Maze, row: i32) -> (v: Vec<bool>)
    requires
        maze.wf(),
        0 <= row,
        row + 1 < grid_rows(maze@),
    ensures
        v@.len() == grid_cols(maze@),
        forall|c: int| 0 <= c < grid_cols(maze@) ==> #[trigger] v@[c] == is_path(
            maze@[row + 1][c],
        ),
{
    let cols = maze.col_size();
    let mut v: Vec<bool> = Vec::new();
    let mut c: i32 = 0;
    while c < cols
        invariant
            maze.wf(),
            cols == grid_cols(maze@),
            0 <= row,
            row + 1 < grid_rows(maze@),
            0 <= c <= cols,
            v@.len() == c,
            forall|j: int| 0 <= j < c ==> #[trigger] v@[j] == is_path(maze@[row + 1][j]),
        decreases cols - c,
    {
        v.push(maze.get(row + 1, c) & PATH_BIT != 0);
        c = c + 1;
    }
    v
}

/// For a mini-rendered builder at `p` (an odd row, so the lower half of its character cell):
/// whether the square above it, the upper half, is a path.
pub fn mini_carver_above_is_path(maze: &Maze, p: Point) -> (b: bool)
    requires
        maze.wf(),
        in_grid(maze@, p.row - 1, p.col as int),
    ensures
        b == is_path(maze@[p.row - 1][p.col as int]),
{
    maze.get(p.row - 1, p.col) & PATH_BIT != 0
}

/// In mini rendering two rows share a character cell: the row that shares it with `row`.
pub fn mini_partner_row(row: i32) -> (r: i32)
    requires
        0 <= row < i32::MAX,
    ensures
        r == if row % 2 == 0 {
            row + 1
        } else {
            row - 1
        },
{
    if row % 2 == 0 {
        row + 1
    } else {
        row - 1
    }
}

} // verus!

verus! {

/// The hunter's laser is one horizontal wall line across the row: each piece is joined to its
/// left and right neighbours inside the row, and only the two end pieces turn up and down.
pub proof fn lemma_laser_is_a_line(cols: int, c: int)
    requires
        cols >= 2,
        0 <= c < cols,
    ensures
        laser_piece(cols, c) <= 15,
        (laser_piece(cols, c) & EAST_WALL != 0) == (c + 1 < cols),
        (laser_piece(cols, c) & WEST_WALL != 0) == (c > 0),
        (laser_piece(cols, c) & NORTH_WALL != 0) == (c == 0 || c == cols - 1),
        (laser_piece(cols, c) & SOUTH_WALL != 0) == (c == 0 || c == cols - 1),
{
    assert(0b0111u32 & 2u32 != 0 && 0b0111u32 & 8u32 == 0 && 0b0111u32 & 1u32 != 0 && 0b0111u32
        & 4u32 != 0) by (bit_vector);
    assert(0b1101u32 & 2u32 == 0 && 0b1101u32 & 8u32 != 0 && 0b1101u32 & 1u32 != 0 && 0b1101u32
        & 4u32 != 0) by (bit_vector);
    assert(0b1010u32 & 2u32 != 0 && 0b1010u32 & 8u32 != 0 && 0b1010u32 & 1u32 == 0 && 0b1010u32
        & 4u32 == 0) by (bit_vector);
}

/// A row one square wide shows a single piece, open to the left.
pub proof fn lemma_laser_single_square()
    ensures
        laser_piece(1, 0) == WALL_UP_DOWN_LEFT,
{
}

} // verus!
