//! Carving passages into a walled grid.
use vstd::prelude::*;
use crate::grid::{
    grid_cols, grid_rows, grid_wf, in_grid, is_built, is_path, same_shape, Grid, Maze, Point,
    BUILDER_BIT, EAST_WALL, NORTH_WALL, PATH_BIT, SOUTH_WALL, WEST_WALL,
};

verus! {

/// How many directions a builder may step in.
pub const NUM_DIRECTIONS: usize = 4;

/// The row offset of builder direction `i`: north, east, south and west, two squares at a time.
pub open spec fn gen_dir_row(i: int) -> int {
    if i == 0 {
        -2
    } else if i == 2 {
        2
    } else {
        0
    }
}

pub open spec fn gen_dir_col(i: int) -> int {
    if i == 1 {
        2
    } else if i == 3 {
        -2
    } else {
        0
    }
}

/// The row offset of cardinal direction `i`: north, east, south and west, one square at a time.
pub open spec fn card_dir_row(i: int) -> int {
    if i == 0 {
        -1
    } else if i == 2 {
        1
    } else {
        0
    }
}

pub open spec fn card_dir_col(i: int) -> int {
    if i == 1 {
        1
    } else if i == 3 {
        -1
    } else {
        0
    }
}

/// The builder step in direction `i` (north, east, south, west).
pub fn generate_direction(i: usize) -> (p: Point)
    requires
        i < NUM_DIRECTIONS,
    ensures
        p.row == gen_dir_row(i as int),
        p.col == gen_dir_col(i as int),
{
    if i == 0 {
        Point { row: -2, col: 0 }
    } else if i == 1 {
        Point { row: 0, col: 2 }
    } else if i == 2 {
        Point { row: 2, col: 0 }
    } else {
        Point { row: 0, col: -2 }
    }
}

/// The one-square step in direction `i` (north, east, south, west).
pub fn cardinal_direction(i: usize) -> (p: Point)
    requires
        i < NUM_DIRECTIONS,
    ensures
        p.row == card_dir_row(i as int),
        p.col == card_dir_col(i as int),
{
    if i == 0 {
        Point { row: -1, col: 0 }
    } else if i == 1 {
        Point { row: 0, col: 1 }
    } else if i == 2 {
        Point { row: 1, col: 0 }
    } else {
        Point { row: 0, col: -1 }
    }
}

/// Strictly inside the outer ring of the grid.
pub open spec fn within_perimeter(g: Grid, r: int, c: int) -> bool {
    0 < r < grid_rows(g) - 1 && 0 < c < grid_cols(g) - 1
}

/// A builder may move to `(r, c)`: it is inside the perimeter and not yet carved.
pub open spec fn can_build(g: Grid, r: int, c: int) -> bool {
    within_perimeter(g, r, c) && !is_built(g[r][c])
}

/// The value of square `(r, c)` after carving `(pr, pc)`: the square itself becomes a built path,
/// and each neighbour loses its wall towards it.
pub open spec fn carved_value(g: Grid, pr: int, pc: int, r: int, c: int) -> u32 {
    let v = g[r][c];
    if r == pr && c == pc {
        v | PATH_BIT | BUILDER_BIT
    } else if r == pr - 1 && c == pc {
        v & !SOUTH_WALL
    } else if r == pr + 1 && c == pc {
        v & !NORTH_WALL
    } else if r == pr && c == pc - 1 {
        v & !EAST_WALL
    } else if r == pr && c == pc + 1 {
        v & !WEST_WALL
    } else {
        v
    }
}

pub open spec fn carve(g: Grid, pr: int, pc: int) -> Grid {
    Seq::new(g.len(), |r: int| Seq::new(g[r].len(), |c: int| carved_value(g, pr, pc, r, c)))
}

/// The wall square between `a` and `b`: one step from `a` towards `b`, rows first.
pub open spec fn wall_row(ar: int, ac: int, br: int, bc: int) -> int {
    if br < ar {
        ar - 1
    } else if br > ar {
        ar + 1
    } else {
        ar
    }
}

pub open spec fn wall_col(ar: int, ac: int, br: int, bc: int) -> int {
    if br != ar {
        ac
    } else if bc < ac {
        ac - 1
    } else {
        ac + 1
    }
}

/// Carves `a`, the wall square towards `b`, and `b`, in that order.
pub open spec fn join(g: Grid, ar: int, ac: int, br: int, bc: int) -> Grid {
    carve(
        carve(carve(g, ar, ac), wall_row(ar, ac, br, bc), wall_col(ar, ac, br, bc)),
        br,
        bc,
    )
}

pub proof fn lemma_flag_bits(v: u32)
    ensures
        (v | PATH_BIT | BUILDER_BIT) & BUILDER_BIT != 0,
        (v | PATH_BIT | BUILDER_BIT) & PATH_BIT != 0,
        (v & !SOUTH_WALL) & BUILDER_BIT == v & BUILDER_BIT,
        (v & !NORTH_WALL) & BUILDER_BIT == v & BUILDER_BIT,
        (v & !EAST_WALL) & BUILDER_BIT == v & BUILDER_BIT,
        (v & !WEST_WALL) & BUILDER_BIT == v & BUILDER_BIT,
        (v & !SOUTH_WALL) & PATH_BIT == v & PATH_BIT,
        (v & !NORTH_WALL) & PATH_BIT == v & PATH_BIT,
        (v & !EAST_WALL) & PATH_BIT == v & PATH_BIT,
        (v & !WEST_WALL) & PATH_BIT == v & PATH_BIT,
{
    assert((v | 0x2000u32 | 0x1000u32) & 0x1000u32 != 0) by (bit_vector);
    assert((v | 0x2000u32 | 0x1000u32) & 0x2000u32 != 0) by (bit_vector);
    assert((v & !4u32) & 0x1000u32 == v & 0x1000u32) by (bit_vector);
    assert((v & !1u32) & 0x1000u32 == v & 0x1000u32) by (bit_vector);
    assert((v & !2u32) & 0x1000u32 == v & 0x1000u32) by (bit_vector);
    assert((v & !8u32) & 0x1000u32 == v & 0x1000u32) by (bit_vector);
    assert((v & !4u32) & 0x2000u32 == v & 0x2000u32) by (bit_vector);
    assert((v & !1u32) & 0x2000u32 == v & 0x2000u32) by (bit_vector);
    assert((v & !2u32) & 0x2000u32 == v & 0x2000u32) by (bit_vector);
    assert((v & !8u32) & 0x2000u32 == v & 0x2000u32) by (bit_vector);
}

/// Carving keeps the shape, makes the carved square a built path, and leaves the built and
/// path flags of every other square as they were.
pub proof fn lemma_carve_flags(g: Grid, pr: int, pc: int)
    requires
        grid_wf(g),
    ensures
        grid_wf(carve(g, pr, pc)),
        same_shape(carve(g, pr, pc), g),
        grid_rows(carve(g, pr, pc)) == grid_rows(g),
        grid_cols(carve(g, pr, pc)) == grid_cols(g),
        forall|r: int, c: int|
            in_grid(g, r, c) ==> {
                &&& is_built(#[trigger] carve(g, pr, pc)[r][c]) == (is_built(g[r][c]) || (r == pr
                    && c == pc))
                &&& is_path(carve(g, pr, pc)[r][c]) == (is_path(g[r][c]) || (r == pr && c == pc))
            },
{
    let h = carve(g, pr, pc);
    assert(h[0].len() == g[0].len());
    assert forall|r: int, c: int| in_grid(g, r, c) implies {
        &&& is_built(#[trigger] h[r][c]) == (is_built(g[r][c]) || (r == pr && c == pc))
        &&& is_path(h[r][c]) == (is_path(g[r][c]) || (r == pr && c == pc))
    } by {
        assert(g[r].len() == g[0].len());
        lemma_flag_bits(g[r][c]);
    }
}

/// Joining keeps the shape and makes exactly `a`, the wall between, and `b` built paths in
/// addition to those that already were.
pub proof fn lemma_join_flags(g: Grid, ar: int, ac: int, br: int, bc: int)
    requires
        grid_wf(g),
    ensures
        grid_wf(join(g, ar, ac, br, bc)),
        same_shape(join(g, ar, ac, br, bc), g),
        grid_rows(join(g, ar, ac, br, bc)) == grid_rows(g),
        grid_cols(join(g, ar, ac, br, bc)) == grid_cols(g),
        forall|r: int, c: int|
            in_grid(g, r, c) ==> {
                &&& is_built(#[trigger] join(g, ar, ac, br, bc)[r][c]) == (is_built(g[r][c]) || (r
                    == ar && c == ac) || (r == wall_row(ar, ac, br, bc) && c == wall_col(
                    ar,
                    ac,
                    br,
                    bc,
                )) || (r == br && c == bc))
                &&& is_path(join(g, ar, ac, br, bc)[r][c]) == (is_path(g[r][c]) || (r == ar && c
                    == ac) || (r == wall_row(ar, ac, br, bc) && c == wall_col(ar, ac, br, bc)) || (r
                    == br && c == bc))
            },
{
    let g1 = carve(g, ar, ac);
    lemma_carve_flags(g, ar, ac);
    let g2 = carve(g1, wall_row(ar, ac, br, bc), wall_col(ar, ac, br, bc));
    lemma_carve_flags(g1, wall_row(ar, ac, br, bc), wall_col(ar, ac, br, bc));
    lemma_carve_flags(g2, br, bc);
    let h = join(g, ar, ac, br, bc);
    assert forall|r: int, c: int| in_grid(g, r, c) implies {
        &&& is_built(#[trigger] h[r][c]) == (is_built(g[r][c]) || (r == ar && c == ac) || (r
            == wall_row(ar, ac, br, bc) && c == wall_col(ar, ac, br, bc)) || (r == br && c == bc))
        &&& is_path(h[r][c]) == (is_path(g[r][c]) || (r == ar && c == ac) || (r == wall_row(
            ar,
            ac,
            br,
            bc,
        ) && c == wall_col(ar, ac, br, bc)) || (r == br && c == bc))
    } by {
        assert(in_grid(g1, r, c));
        assert(in_grid(g2, r, c));
        assert(is_built(g1[r][c]) == (is_built(g[r][c]) || (r == ar && c == ac)));
        assert(is_built(g2[r][c]) == (is_built(g1[r][c]) || (r == wall_row(ar, ac, br, bc) && c
            == wall_col(ar, ac, br, bc))));
        assert(is_path(g1[r][c]) == (is_path(g[r][c]) || (r == ar && c == ac)));
        assert(is_path(g2[r][c]) == (is_path(g1[r][c]) || (r == wall_row(ar, ac, br, bc) && c
            == wall_col(ar, ac, br, bc))));
    }
}

/// Whether a builder may move to `next`: inside the perimeter and not yet carved.
pub fn can_build_new_square(maze: &Maze, next: Point) -> (b: bool)
    requires
        maze.wf(),
    ensures
        b == can_build(maze@, next.row as int, next.col as int),
{
    if is_square_within_perimeter_walls(maze, next) {
        maze.get(next.row, next.col) & BUILDER_BIT == 0
    } else {
        false
    }
}

/// Whether `next` lies strictly inside the outer ring of the grid.
pub fn is_square_within_perimeter_walls(maze: &Maze, next: Point) -> (b: bool)
    requires
        maze.wf(),
    ensures
        b == within_perimeter(maze@, next.row as int, next.col as int),
{
    next.row < maze.row_size() - 1 && next.row > 0 && next.col < maze.col_size() - 1 && next.col
        > 0
}

/// Makes `p` a built path and opens the walls of its neighbours towards it.
pub fn carve_path_walls(maze: &mut Maze, p: Point)
    requires
        old(maze).wf(),
        in_grid(old(maze)@, p.row as int, p.col as int),
    ensures
        final(maze).wf(),
        final(maze)@ == carve(old(maze)@, p.row as int, p.col as int),
{
    let ghost g = maze@;
    let v = maze.get(p.row, p.col);
    maze.set(p.row, p.col, v | PATH_BIT | BUILDER_BIT);
    if p.row > 0 {
        let v = maze.get(p.row - 1, p.col);
        maze.set(p.row - 1, p.col, v & !SOUTH_WALL);
    }
    if p.row + 1 < maze.row_size() {
        let v = maze.get(p.row + 1, p.col);
        maze.set(p.row + 1, p.col, v & !NORTH_WALL);
    }
    if p.col > 0 {
        let v = maze.get(p.row, p.col - 1);
        maze.set(p.row, p.col - 1, v & !EAST_WALL);
    }
    if p.col + 1 < maze.col_size() {
        let v = maze.get(p.row, p.col + 1);
        maze.set(p.row, p.col + 1, v & !WEST_WALL);
    }
    proof {
        let h = carve(g, p.row as int, p.col as int);
        assert forall|r: int| 0 <= r < g.len() implies #[trigger] maze@[r] =~= h[r] by {
            assert(g[r].len() == g[0].len());
        }
        assert(maze@ =~= h);
    }
}

/// Carves `cur`, the wall square towards `next`, and `next`.
pub fn join_squares(maze: &mut Maze, cur: Point, next: Point)
    requires
        old(maze).wf(),
        in_grid(old(maze)@, cur.row as int, cur.col as int),
        in_grid(old(maze)@, next.row as int, next.col as int),
        cur != next,
    ensures
        final(maze).wf(),
        final(maze)@ == join(
            old(maze)@,
            cur.row as int,
            cur.col as int,
            next.row as int,
            next.col as int,
        ),
{
    let mut wall = cur;
    if next.row < cur.row {
        wall.row = wall.row - 1;
    } else if next.row > cur.row {
        wall.row = wall.row + 1;
    } else if next.col < cur.col {
        wall.col = wall.col - 1;
    } else {
        wall.col = wall.col + 1;
    }
    proof {
        lemma_carve_flags(maze@, cur.row as int, cur.col as int);
    }
    carve_path_walls(maze, cur);
    proof {
        lemma_carve_flags(maze@, wall.row as int, wall.col as int);
    }
    carve_path_walls(maze, wall);
    carve_path_walls(maze, next);
}

} // verus!
