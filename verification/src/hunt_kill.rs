//! The hunt-and-kill maze builder.
//!
//! The builder walks from square to square of its lattice (the odd rows and columns inside the
//! perimeter), carving as it goes, in a random direction each time. When it is stuck it hunts:
//! it scans the rows, from the highest one that may still hold an uncarved square, for an uncarved
//! square next to a carved one, joins the two, and walks on from there. When a hunt finds nothing
//! the maze is done.
use vstd::prelude::*;
use crate::carving::{
    can_build, can_build_new_square, gen_dir_col, gen_dir_row, generate_direction,
    is_square_within_perimeter_walls, join, join_squares, lemma_join_flags, wall_col, wall_row,
    within_perimeter, NUM_DIRECTIONS,
};
use crate::count::{count_rect, lemma_count_mono, lemma_count_strict};
use crate::grid::{
    fill_maze_with_walls, grid_cols, grid_rows, grid_wf, in_grid, is_built, is_path, walled_grid,
    Grid, Maze, Point, BUILDER_BIT,
};
use crate::random::{new_rng, random_in_range, shuffle};
use crate::perfect::{
    lemma_perfect, lemma_step_keeps_tree, lemma_walled_tree, passages_joined, perfect_maze, rooted,
    tree_count,
};

verus! {

/// A square of the builder's lattice: odd row and odd column, inside the perimeter.
pub open spec fn is_cell(g: Grid, r: int, c: int) -> bool {
    within_perimeter(g, r, c) && r % 2 == 1 && c % 2 == 1
}

/// The lattice has a single square: no builder can ever take a step.
pub open spec fn single_cell_lattice(g: Grid) -> bool {
    grid_rows(g) <= 4 && grid_cols(g) <= 4
}

pub open spec fn all_cells_built(g: Grid) -> bool {
    forall|r: int, c: int| #[trigger] is_cell(g, r, c) ==> is_built(g[r][c])
}

pub open spec fn no_cell_built(g: Grid) -> bool {
    forall|r: int, c: int| #[trigger] is_cell(g, r, c) ==> !is_built(g[r][c])
}

/// The number of lattice squares not yet carved.
pub open spec fn unbuilt_count(g: Grid) -> nat {
    count_rect(|r: int, c: int| is_cell(g, r, c) && !is_built(g[r][c]), grid_rows(g), grid_cols(g))
}

/// Carving keeps paths inside the perimeter, off the squares where two even lines cross, and
/// exactly on the built squares.
pub open spec fn carving_sound(g: Grid) -> bool {
    forall|r: int, c: int|
        #![trigger g[r][c]]
        in_grid(g, r, c) ==> {
            &&& is_built(g[r][c]) == is_path(g[r][c])
            &&& is_path(g[r][c]) ==> within_perimeter(g, r, c)
            &&& is_path(g[r][c]) ==> (r % 2 == 1 || c % 2 == 1)
        }
}

/// The first entry of `order`, from index `from` on, whose step leads from `(cr, cc)` to a square
/// a builder may move to.
pub open spec fn walk_choice(g: Grid, cr: int, cc: int, order: Seq<usize>, from: int) -> Option<
    int,
>
    decreases order.len() - from,
{
    if from < 0 || from >= order.len() {
        None
    } else if can_build(
        g,
        cr + gen_dir_row(order[from] as int),
        cc + gen_dir_col(order[from] as int),
    ) {
        Some(order[from] as int)
    } else {
        walk_choice(g, cr, cc, order, from + 1)
    }
}

/// Whether lattice neighbour `k` of `(r, c)` is inside the perimeter and already carved.
pub open spec fn built_neighbor(g: Grid, r: int, c: int, k: int) -> bool {
    within_perimeter(g, r + gen_dir_row(k), c + gen_dir_col(k)) && is_built(
        g[r + gen_dir_row(k)][c + gen_dir_col(k)],
    )
}

pub open spec fn has_built_neighbor(g: Grid, r: int, c: int) -> bool {
    exists|k: int| 0 <= k < 4 && #[trigger] built_neighbor(g, r, c, k)
}

/// The first direction, from `k` on, towards a carved lattice neighbour of `(r, c)`.
pub open spec fn hunt_dir(g: Grid, r: int, c: int, k: int) -> Option<int>
    decreases 4 - k,
{
    if k < 0 || k >= 4 {
        None
    } else if built_neighbor(g, r, c, k) {
        Some(k)
    } else {
        hunt_dir(g, r, c, k + 1)
    }
}

/// The first uncarved square of row `r`, scanning columns `c`, `c + 2`, ... inside the perimeter,
/// that has a carved lattice neighbour; with the direction towards the first such neighbour.
pub open spec fn hunt_col(g: Grid, r: int, c: int) -> Option<(int, int)>
    decreases grid_cols(g) - c,
{
    if c >= grid_cols(g) - 1 {
        None
    } else if !is_built(g[r][c]) && hunt_dir(g, r, c, 0) is Some {
        Some((c, hunt_dir(g, r, c, 0)->0))
    } else {
        hunt_col(g, r, c + 2)
    }
}

/// Row `r` holds an uncarved square in an odd column inside the perimeter.
pub open spec fn row_has_unbuilt(g: Grid, r: int) -> bool {
    exists|c: int| 0 < c < grid_cols(g) - 1 && c % 2 == 1 && !is_built(#[trigger] g[r][c])
}

pub open spec fn row_complete(g: Grid, r: int) -> bool {
    forall|c: int| #[trigger] is_cell(g, r, c) ==> is_built(g[r][c])
}

/// Every uncarved lattice square of row `r` is cut off from the carved ones.
pub open spec fn row_stuck(g: Grid, r: int) -> bool {
    forall|c: int| #[trigger] is_cell(g, r, c) && !is_built(g[r][c]) ==> !has_built_neighbor(g, r, c)
}

/// Where the builder is in its work.
#[derive(Debug, Clone, Copy, PartialEq, Eq, Structural)]
pub enum Phase {
    /// Walking on from `cur`.
    Walking,
    /// Hunting, about to scan `row`; `highest_set` tells whether this hunt has already moved the
    /// highest completed row.
    Hunting { row: i32, highest_set: bool },
    /// A hunt found nothing: the maze is done.
    Finished,
}

/// The builder's state between steps.
#[derive(Debug, Clone, Copy, PartialEq, Eq, Structural)]
pub struct HuntKill {
    pub cur: Point,
    pub highest_completed_row: i32,
    pub phase: Phase,
}

/// What one step of the builder did.
#[derive(Debug, Clone, Copy, PartialEq, Eq, Structural)]
pub enum BuildStep {
    /// Walked from `from` to `to`, carving both and the wall between.
    Carved { from: Point, to: Point },
    /// No direction led anywhere new: a hunt begins.
    Stuck,
    /// Scanned `row` and found nothing to join.
    RowScanned { row: i32 },
    /// Scanned the row of `from` and joined the uncarved `from` to its carved neighbour `to`.
    HuntJoined { from: Point, to: Point },
    /// The maze is done.
    Done,
}

pub open spec fn point_of(r: int, c: int) -> Point {
    Point { row: r as i32, col: c as i32 }
}

impl HuntKill {
    /// What a step does to the builder and the grid, given the direction `order` to try in.
    pub open spec fn step_spec(self, g: Grid, order: Seq<usize>) -> (HuntKill, Grid, BuildStep) {
        let cr = self.cur.row as int;
        let cc = self.cur.col as int;
        match self.phase {
            Phase::Walking => match walk_choice(g, cr, cc, order, 0) {
                Some(k) => {
                    let nr = cr + gen_dir_row(k);
                    let nc = cc + gen_dir_col(k);
                    (
                        HuntKill {
                            cur: point_of(nr, nc),
                            highest_completed_row: self.highest_completed_row,
                            phase: Phase::Walking,
                        },
                        join(g, cr, cc, nr, nc),
                        BuildStep::Carved { from: self.cur, to: point_of(nr, nc) },
                    )
                },
                None => (
                    HuntKill {
                        cur: self.cur,
                        highest_completed_row: self.highest_completed_row,
                        phase: Phase::Hunting {
                            row: self.highest_completed_row,
                            highest_set: false,
                        },
                    },
                    g,
                    BuildStep::Stuck,
                ),
            },
            Phase::Hunting { row, highest_set } => {
                if row >= grid_rows(g) - 1 {
                    (
                        HuntKill {
                            cur: self.cur,
                            highest_completed_row: self.highest_completed_row,
                            phase: Phase::Finished,
                        },
                        g,
                        BuildStep::Done,
                    )
                } else {
                    let unbuilt = row_has_unbuilt(g, row as int);
                    let highest = if unbuilt && !highest_set {
                        row
                    } else {
                        self.highest_completed_row
                    };
                    match hunt_col(g, row as int, 1) {
                        Some((c, k)) => {
                            let nr = row + gen_dir_row(k);
                            let nc = c + gen_dir_col(k);
                            (
                                HuntKill {
                                    cur: point_of(row as int, c),
                                    highest_completed_row: highest,
                                    phase: Phase::Walking,
                                },
                                join(g, row as int, c, nr, nc),
                                BuildStep::HuntJoined {
                                    from: point_of(row as int, c),
                                    to: point_of(nr, nc),
                                },
                            )
                        },
                        None => (
                            HuntKill {
                                cur: self.cur,
                                highest_completed_row: highest,
                                phase: Phase::Hunting {
                                    row: (row + 2) as i32,
                                    highest_set: highest_set || unbuilt,
                                },
                            },
                            g,
                            BuildStep::RowScanned { row },
                        ),
                    }
                }
            },
            Phase::Finished => (self, g, BuildStep::Done),
        }
    }

    /// What a step needs: the builder stands inside the perimeter, rows are scanned from 1 on,
    /// and every direction is one of the four.
    pub open spec fn can_step(self, g: Grid, order: Seq<usize>) -> bool {
        &&& grid_wf(g)
        &&& within_perimeter(g, self.cur.row as int, self.cur.col as int)
        &&& self.highest_completed_row >= 1
        &&& (self.phase matches Phase::Hunting { row, .. } ==> row >= 1)
        &&& forall|i: int| 0 <= i < order.len() ==> #[trigger] order[i] < NUM_DIRECTIONS
    }

    /// What the builder knows of the grid between steps.
    pub open spec fn consistent(self, g: Grid) -> bool {
        let h = self.highest_completed_row as int;
        let cr = self.cur.row as int;
        let cc = self.cur.col as int;
        &&& is_cell(g, cr, cc)
        &&& 1 <= h && h % 2 == 1
        &&& forall|r: int| 1 <= r < h && r % 2 == 1 ==> #[trigger] row_complete(g, r)
        &&& match self.phase {
            Phase::Walking => is_built(g[cr][cc]) || no_cell_built(g),
            Phase::Hunting { row, highest_set } => {
                &&& row % 2 == 1
                &&& h <= row
                &&& is_built(g[cr][cc]) || single_cell_lattice(g)
                &&& forall|r: int| h <= r < row && r % 2 == 1 ==> #[trigger] row_stuck(g, r)
                &&& !highest_set ==> forall|r: int|
                    h <= r < row && r % 2 == 1 ==> #[trigger] row_complete(g, r)
            },
            Phase::Finished => {
                &&& is_built(g[cr][cc]) || single_cell_lattice(g)
                &&& forall|r: int|
                    h <= r < grid_rows(g) - 1 && r % 2 == 1 ==> #[trigger] row_stuck(g, r)
            },
        }
    }

    /// How far the builder is from the end of its current walk or hunt.
    pub open spec fn phase_rank(self, g: Grid) -> nat {
        match self.phase {
            Phase::Walking => (grid_rows(g) + 2) as nat,
            Phase::Hunting { row, .. } => if row < grid_rows(g) {
                (grid_rows(g) - row) as nat
            } else {
                0
            },
            Phase::Finished => 0,
        }
    }

    /// A builder that starts walking at `start`.
    pub fn new(start: Point) -> (b: HuntKill)
        ensures
            b == (HuntKill { cur: start, highest_completed_row: 1, phase: Phase::Walking }),
    {
        HuntKill { cur: start, highest_completed_row: 1, phase: Phase::Walking }
    }

    /// One step: a walk step in the directions of `order` tried in turn, or the scan of one row
    /// of a hunt.
    #[verifier::spinoff_prover]
    pub fn step(&mut self, maze: &mut Maze, order: &Vec<usize>) -> (s: BuildStep)
        requires
            old(maze).wf(),
            old(self).can_step(old(maze)@, order@),
        ensures
            final(maze).wf(),
            (*final(self), final(maze)@, s) == old(self).step_spec(old(maze)@, order@),
    {
        match self.phase {
            Phase::Walking => {
                match walk(maze, self.cur, order) {
                    Some(next) => {
                        let from = self.cur;
                        self.cur = next;
                        BuildStep::Carved { from, to: next }
                    },
                    None => {
                        self.phase = Phase::Hunting {
                            row: self.highest_completed_row,
                            highest_set: false,
                        };
                        BuildStep::Stuck
                    },
                }
            },
            Phase::Hunting { row, highest_set } => {
                if row >= maze.row_size() - 1 {
                    self.phase = Phase::Finished;
                    BuildStep::Done
                } else {
                    let (unbuilt, found) = hunt_row(maze, row);
                    if unbuilt && !highest_set {
                        self.highest_completed_row = row;
                    }
                    match found {
                        Some((cand, next)) => {
                            self.cur = cand;
                            self.phase = Phase::Walking;
                            BuildStep::HuntJoined { from: cand, to: next }
                        },
                        None => {
                            self.phase = Phase::Hunting {
                                row: row + 2,
                                highest_set: highest_set || unbuilt,
                            };
                            BuildStep::RowScanned { row }
                        },
                    }
                }
            },
            Phase::Finished => BuildStep::Done,
        }
    }
}

/// Tries the directions of `order` in turn from `cur`; at the first that leads to a square a
/// builder may move to, joins `cur` to it and returns it.
fn walk(maze: &mut Maze, cur: Point, order: &Vec<usize>) -> (res: Option<Point>)
    requires
        old(maze).wf(),
        within_perimeter(old(maze)@, cur.row as int, cur.col as int),
        forall|i: int| 0 <= i < order@.len() ==> #[trigger] order@[i] < NUM_DIRECTIONS,
    ensures
        final(maze).wf(),
        match walk_choice(old(maze)@, cur.row as int, cur.col as int, order@, 0) {
            Some(k) => {
                &&& res == Some(
                    point_of(cur.row + gen_dir_row(k), cur.col + gen_dir_col(k)),
                )
                &&& final(maze)@ == join(
                    old(maze)@,
                    cur.row as int,
                    cur.col as int,
                    cur.row + gen_dir_row(k),
                    cur.col + gen_dir_col(k),
                )
            },
            None => res is None && final(maze)@ == old(maze)@,
        },
{
    let ghost g = maze@;
    let mut i: usize = 0;
    while i < order.len()
        invariant
            maze@ == g,
            g == old(maze)@,
            maze.wf(),
            0 <= i <= order@.len(),
            within_perimeter(g, cur.row as int, cur.col as int),
            forall|j: int| 0 <= j < order@.len() ==> #[trigger] order@[j] < NUM_DIRECTIONS,
            walk_choice(g, cur.row as int, cur.col as int, order@, 0) == walk_choice(
                g,
                cur.row as int,
                cur.col as int,
                order@,
                i as int,
            ),
        decreases order@.len() - i,
    {
        let d = generate_direction(order[i]);
        let branch = Point { row: cur.row + d.row, col: cur.col + d.col };
        if can_build_new_square(maze, branch) {
            join_squares(maze, cur, branch);
            assert(walk_choice(g, cur.row as int, cur.col as int, order@, i as int) == Some(
                order@[i as int] as int,
            ));
            assert(branch == point_of(
                cur.row + gen_dir_row(order@[i as int] as int),
                cur.col + gen_dir_col(order@[i as int] as int),
            ));
            return Some(branch);
        }
        i = i + 1;
    }
    None
}

/// Scans row `row` for an uncarved lattice square with a carved lattice neighbour; joins the
/// first such square to its first such neighbour. Also tells whether the row holds any uncarved
/// lattice square.
#[verifier::spinoff_prover]
fn hunt_row(maze: &mut Maze, row: i32) -> (res: (bool, Option<(Point, Point)>))
    requires
        old(maze).wf(),
        1 <= row < grid_rows(old(maze)@) - 1,
    ensures
        final(maze).wf(),
        res.0 == row_has_unbuilt(old(maze)@, row as int),
        match hunt_col(old(maze)@, row as int, 1) {
            Some((c, k)) => {
                &&& res.1 == Some(
                    (point_of(row as int, c), point_of(row + gen_dir_row(k), c + gen_dir_col(k))),
                )
                &&& final(maze)@ == join(
                    old(maze)@,
                    row as int,
                    c,
                    row + gen_dir_row(k),
                    c + gen_dir_col(k),
                )
            },
            None => res.1 is None && final(maze)@ == old(maze)@,
        },
{
    let ghost g = maze@;
    let cols = maze.col_size();
    let mut unbuilt = false;
    let mut c: i32 = 1;
    while c < cols - 1
        invariant
            maze@ == g,
            g == old(maze)@,
            maze.wf(),
            cols == grid_cols(g),
            1 <= row < grid_rows(g) - 1,
            1 <= c <= cols,
            c % 2 == 1,
            hunt_col(g, row as int, 1) == hunt_col(g, row as int, c as int),
            unbuilt == exists|j: int|
                1 <= j < c && j % 2 == 1 && !is_built(#[trigger] g[row as int][j]),
        decreases cols - c,
    {
        if maze.get(row, c) & BUILDER_BIT == 0 {
            unbuilt = true;
            let cand = Point { row, col: c };
            let mut k: usize = 0;
            while k < NUM_DIRECTIONS
                invariant
                    maze@ == g,
                    g == old(maze)@,
                    maze.wf(),
                    cols == grid_cols(g),
                    hunt_col(g, row as int, 1) == hunt_col(g, row as int, c as int),
                    1 <= row < grid_rows(g) - 1,
                    1 <= c < cols - 1,
                    c % 2 == 1,
                    cand == (Point { row, col: c }),
                    !is_built(g[row as int][c as int]),
                    0 <= k <= 4,
                    hunt_dir(g, row as int, c as int, 0) == hunt_dir(
                        g,
                        row as int,
                        c as int,
                        k as int,
                    ),
                decreases 4 - k,
            {
                let d = generate_direction(k);
                let next = Point { row: row + d.row, col: c + d.col };
                if is_square_within_perimeter_walls(maze, next) && maze.get(next.row, next.col)
                    & BUILDER_BIT != 0 {
                    join_squares(maze, cand, next);
                    assert(built_neighbor(g, row as int, c as int, k as int));
                    assert(hunt_dir(g, row as int, c as int, k as int) == Some(k as int));
                    assert(hunt_col(g, row as int, c as int) == Some((c as int, k as int)));
                    assert(0 < c < grid_cols(g) - 1 && c % 2 == 1 && !is_built(g[row as int][c as int]));
                    return (true, Some((cand, next)));
                }
                k = k + 1;
            }
        }
        c = c + 2;
    }
    proof {
        if unbuilt {
            let j = choose|j: int| 1 <= j < c && j % 2 == 1 && !is_built(#[trigger] g[row as int][j]);
            assert(0 < j < grid_cols(g) - 1);
        } else {
            assert forall|j: int| 0 < j < grid_cols(g) - 1 && j % 2 == 1 implies is_built(
                #[trigger] g[row as int][j],
            ) by {}
        }
    }
    (unbuilt, None)
}

} // verus!

verus! {

/// What `hunt_dir` returns is a direction towards a carved neighbour, the first one from `k` on.
pub proof fn lemma_hunt_dir(g: Grid, r: int, c: int, k: int)
    requires
        0 <= k,
    ensures
        hunt_dir(g, r, c, k) matches Some(j) ==> k <= j < 4 && built_neighbor(g, r, c, j),
        hunt_dir(g, r, c, k) is None ==> forall|j: int| k <= j < 4 ==> !#[trigger] built_neighbor(g, r, c, j),
    decreases 4 - k,
{
    if k < 4 && !built_neighbor(g, r, c, k) {
        lemma_hunt_dir(g, r, c, k + 1);
    }
}

/// What `hunt_col` returns is an uncarved square of the row with a carved neighbour; when it
/// returns nothing, every uncarved square it scanned is cut off from the carved ones.
pub proof fn lemma_hunt_col(g: Grid, r: int, c: int)
    requires
        c >= 1,
    ensures
        hunt_col(g, r, c) matches Some((j, k)) ==> {
            &&& c <= j < grid_cols(g) - 1
            &&& (j - c) % 2 == 0
            &&& !is_built(g[r][j])
            &&& 0 <= k < 4
            &&& built_neighbor(g, r, j, k)
        },
        hunt_col(g, r, c) is None ==> forall|j: int|
            c <= j < grid_cols(g) - 1 && (j - c) % 2 == 0 && !is_built(#[trigger] g[r][j])
                ==> !has_built_neighbor(g, r, j),
    decreases grid_cols(g) - c,
{
    lemma_hunt_dir(g, r, c, 0);
    if c < grid_cols(g) - 1 && !(!is_built(g[r][c]) && hunt_dir(g, r, c, 0) is Some) {
        lemma_hunt_col(g, r, c + 2);
        if hunt_col(g, r, c) is None {
            assert forall|j: int|
                c <= j < grid_cols(g) - 1 && (j - c) % 2 == 0 && !is_built(
                    #[trigger] g[r][j],
                ) implies !has_built_neighbor(g, r, j) by {
                if j == c {
                    lemma_hunt_dir(g, r, c, 0);
                } else {
                    assert(c + 2 <= j && (j - (c + 2)) % 2 == 0);
                }
            }
        }
    }
}

/// What `walk_choice` returns is a direction of `order` that leads to a square a builder may move
/// to; when it returns nothing, no direction of `order` from `from` on does.
pub proof fn lemma_walk_choice(g: Grid, cr: int, cc: int, order: Seq<usize>, from: int)
    requires
        0 <= from,
    ensures
        walk_choice(g, cr, cc, order, from) matches Some(k) ==> {
            &&& exists|i: int| from <= i < order.len() && order[i] == k
            &&& can_build(g, cr + gen_dir_row(k), cc + gen_dir_col(k))
        },
        walk_choice(g, cr, cc, order, from) is None ==> forall|i: int|
            from <= i < order.len() ==> !can_build(
                g,
                cr + gen_dir_row(#[trigger] order[i] as int),
                cc + gen_dir_col(order[i] as int),
            ),
    decreases order.len() - from,
{
    if from < order.len() && !can_build(
        g,
        cr + gen_dir_row(order[from] as int),
        cc + gen_dir_col(order[from] as int),
    ) {
        lemma_walk_choice(g, cr, cc, order, from + 1);
    }
}

pub open spec fn abs_diff(a: int, b: int) -> nat {
    if a < b {
        (b - a) as nat
    } else {
        (a - b) as nat
    }
}

/// Between a carved and an uncarved lattice square there is always an uncarved square next to a
/// carved one.
pub proof fn lemma_frontier(g: Grid, ur: int, uc: int, wr: int, wc: int) -> (x: (int, int, int))
    requires
        is_cell(g, ur, uc),
        !is_built(g[ur][uc]),
        is_cell(g, wr, wc),
        is_built(g[wr][wc]),
    ensures
        is_cell(g, x.0, x.1),
        !is_built(g[x.0][x.1]),
        0 <= x.2 < 4,
        built_neighbor(g, x.0, x.1, x.2),
    decreases abs_diff(ur, wr) + abs_diff(uc, wc),
{
    if uc < wc {
        if is_built(g[ur][uc + 2]) {
            (ur, uc, 1)
        } else {
            lemma_frontier(g, ur, uc + 2, wr, wc)
        }
    } else if uc > wc {
        if is_built(g[ur][uc - 2]) {
            (ur, uc, 3)
        } else {
            lemma_frontier(g, ur, uc - 2, wr, wc)
        }
    } else if ur < wr {
        if is_built(g[ur + 2][uc]) {
            (ur, uc, 2)
        } else {
            lemma_frontier(g, ur + 2, uc, wr, wc)
        }
    } else {
        if is_built(g[ur - 2][uc]) {
            (ur, uc, 0)
        } else {
            lemma_frontier(g, ur - 2, uc, wr, wc)
        }
    }
}

} // verus!

verus! {

/// Carving only adds: a square carved before stays carved.
pub open spec fn built_grows(g: Grid, h: Grid) -> bool {
    forall|r: int, c: int| in_grid(g, r, c) && is_built(g[r][c]) ==> is_built(#[trigger] h[r][c])
}

/// Joining two lattice neighbours keeps the carving sound, carves both, uncarves nothing, and
/// lowers the count of uncarved lattice squares when one of the two was uncarved.
#[verifier::spinoff_prover]
pub proof fn lemma_join_cells(g: Grid, ar: int, ac: int, k: int)
    requires
        grid_wf(g),
        carving_sound(g),
        is_cell(g, ar, ac),
        0 <= k < 4,
        is_cell(g, ar + gen_dir_row(k), ac + gen_dir_col(k)),
    ensures
        ({
            let br = ar + gen_dir_row(k);
            let bc = ac + gen_dir_col(k);
            let h = join(g, ar, ac, br, bc);
            &&& grid_wf(h)
            &&& grid_rows(h) == grid_rows(g)
            &&& grid_cols(h) == grid_cols(g)
            &&& carving_sound(h)
            &&& is_built(h[ar][ac])
            &&& is_built(h[br][bc])
            &&& built_grows(g, h)
            &&& unbuilt_count(h) <= unbuilt_count(g)
            &&& (!is_built(g[ar][ac]) || !is_built(g[br][bc])) ==> unbuilt_count(h) < unbuilt_count(
                g,
            )
        }),
{
    let br = ar + gen_dir_row(k);
    let bc = ac + gen_dir_col(k);
    let h = join(g, ar, ac, br, bc);
    let wr = wall_row(ar, ac, br, bc);
    let wc = wall_col(ar, ac, br, bc);
    lemma_join_flags(g, ar, ac, br, bc);
    assert(within_perimeter(g, wr, wc));
    assert(wr % 2 == 1 || wc % 2 == 1);
    assert forall|r: int, c: int| #![trigger h[r][c]] in_grid(h, r, c) implies {
        &&& is_built(h[r][c]) == is_path(h[r][c])
        &&& is_path(h[r][c]) ==> within_perimeter(h, r, c)
        &&& is_path(h[r][c]) ==> (r % 2 == 1 || c % 2 == 1)
    } by {
        assert(in_grid(g, r, c));
        assert(is_built(g[r][c]) == is_path(g[r][c]));
    }
    let fh = |r: int, c: int| is_cell(h, r, c) && !is_built(h[r][c]);
    let fg = |r: int, c: int| is_cell(g, r, c) && !is_built(g[r][c]);
    assert forall|r: int, c: int|
        0 <= r < grid_rows(g) && 0 <= c < grid_cols(g) && #[trigger] fh(r, c) implies fg(r, c) by {
        assert(in_grid(g, r, c));
    }
    lemma_count_mono(fh, fg, grid_rows(g), grid_cols(g));
    if !is_built(g[ar][ac]) {
        lemma_count_strict(fh, fg, grid_rows(g), grid_cols(g), ar, ac);
    } else if !is_built(g[br][bc]) {
        lemma_count_strict(fh, fg, grid_rows(g), grid_cols(g), br, bc);
    }
}

} // verus!

verus! {

/// Every direction appears in `order`.
pub open spec fn covers_directions(order: Seq<usize>) -> bool {
    forall|k: usize| k < NUM_DIRECTIONS ==> #[trigger] order.contains(k)
}

/// Every step keeps the builder consistent with the grid and the carving sound, and either
/// carves a new lattice square or moves the builder on within its walk or hunt; a step that
/// reports `Done` leaves the builder finished and the grid as it was.
#[verifier::spinoff_prover]
pub proof fn lemma_step_keeps_consistent(b: HuntKill, g: Grid, order: Seq<usize>)
    requires
        b.can_step(g, order),
        b.consistent(g),
        carving_sound(g),
        covers_directions(order),
    ensures
        ({
            let (b2, g2, s) = b.step_spec(g, order);
            &&& grid_wf(g2)
            &&& grid_rows(g2) == grid_rows(g)
            &&& grid_cols(g2) == grid_cols(g)
            &&& b2.consistent(g2)
            &&& carving_sound(g2)
            &&& built_grows(g, g2)
            &&& within_perimeter(g2, b2.cur.row as int, b2.cur.col as int)
            &&& b2.highest_completed_row >= 1
            &&& (b2.phase matches Phase::Hunting { row, .. } ==> row >= 1)
            &&& s is Done ==> b2.phase is Finished && g2 == g
            &&& single_cell_lattice(g) ==> g2 == g
            &&& !(s is Done) ==> (unbuilt_count(g2) < unbuilt_count(g) || (unbuilt_count(g2)
                == unbuilt_count(g) && b2.phase_rank(g2) < b.phase_rank(g)))
        }),
{
    let (b2, g2, s) = b.step_spec(g, order);
    let cr = b.cur.row as int;
    let cc = b.cur.col as int;
    let h = b.highest_completed_row as int;
    match b.phase {
        Phase::Walking => {
            lemma_walk_choice(g, cr, cc, order, 0);
            match walk_choice(g, cr, cc, order, 0) {
                Some(k) => {
                    let i = choose|i: int| 0 <= i < order.len() && order[i] == k;
                    assert(order[i] < NUM_DIRECTIONS);
                    lemma_join_cells(g, cr, cc, k);
                    assert(!single_cell_lattice(g));
                    assert forall|r: int| 1 <= r < h && r % 2 == 1 implies #[trigger] row_complete(
                        g2,
                        r,
                    ) by {
                        assert(row_complete(g, r));
                        assert forall|c: int| #[trigger] is_cell(g2, r, c) implies is_built(
                            g2[r][c],
                        ) by {
                            assert(is_cell(g, r, c));
                        }
                    }
                },
                None => {
                    if !is_built(g[cr][cc]) {
                        assert forall|k: int| 0 <= k < 4 implies !within_perimeter(
                            g,
                            cr + gen_dir_row(k),
                            cc + gen_dir_col(k),
                        ) by {
                            assert(order.contains(k as usize));
                            let i = choose|i: int| 0 <= i < order.len() && #[trigger] order[i] == k as usize;
                            assert(!can_build(
                                g,
                                cr + gen_dir_row(order[i] as int),
                                cc + gen_dir_col(order[i] as int),
                            ));
                            if within_perimeter(g, cr + gen_dir_row(k), cc + gen_dir_col(k)) {
                                assert(is_cell(g, cr + gen_dir_row(k), cc + gen_dir_col(k)));
                            }
                        }
                        assert(!within_perimeter(g, cr + gen_dir_row(0), cc + gen_dir_col(0)));
                        assert(!within_perimeter(g, cr + gen_dir_row(1), cc + gen_dir_col(1)));
                        assert(!within_perimeter(g, cr + gen_dir_row(2), cc + gen_dir_col(2)));
                        assert(!within_perimeter(g, cr + gen_dir_row(3), cc + gen_dir_col(3)));
                    }
                },
            }
        },
        Phase::Hunting { row, highest_set } => {
            if row >= grid_rows(g) - 1 {
            } else {
                let unbuilt = row_has_unbuilt(g, row as int);
                lemma_hunt_col(g, row as int, 1);
                match hunt_col(g, row as int, 1) {
                    Some((c, k)) => {
                        assert(is_cell(g, row as int, c));
                        lemma_join_cells(g, row as int, c, k);
                        assert(!single_cell_lattice(g));
                        assert(unbuilt);
                        let h2 = b2.highest_completed_row as int;
                        assert forall|r: int| 1 <= r < h2 && r % 2 == 1 implies #[trigger] row_complete(
                            g2,
                            r,
                        ) by {
                            assert(row_complete(g, r));
                            assert forall|j: int| #[trigger] is_cell(g2, r, j) implies is_built(
                                g2[r][j],
                            ) by {
                                assert(is_cell(g, r, j));
                            }
                        }
                    },
                    None => {
                        assert(row_stuck(g, row as int)) by {
                            assert forall|j: int| #[trigger]
                                is_cell(g, row as int, j) && !is_built(
                                    g[row as int][j],
                                ) implies !has_built_neighbor(g, row as int, j) by {
                                assert((j - 1) % 2 == 0);
                            }
                        }
                        if !unbuilt {
                            assert(row_complete(g, row as int)) by {
                                assert forall|j: int| #[trigger]
                                    is_cell(g, row as int, j) implies is_built(g[row as int][j]) by {
                                    if !is_built(g[row as int][j]) {
                                        assert(0 < j < grid_cols(g) - 1 && j % 2 == 1);
                                    }
                                }
                            }
                        }
                        let h2 = b2.highest_completed_row as int;
                        assert forall|r: int| 1 <= r < h2 && r % 2 == 1 implies #[trigger] row_complete(
                            g2,
                            r,
                        ) by {
                        }
                        assert forall|r: int|
                            h2 <= r < row + 2 && r % 2 == 1 implies #[trigger] row_stuck(g2, r) by {
                        }
                    },
                }
            }
        },
        Phase::Finished => {},
    }
}

/// When the builder has finished, every lattice square is carved, unless the lattice has a
/// single square (which no step can carve).
pub proof fn lemma_finished_complete(b: HuntKill, g: Grid)
    requires
        b.consistent(g),
        b.phase is Finished,
        !single_cell_lattice(g),
    ensures
        all_cells_built(g),
{
    let h = b.highest_completed_row as int;
    assert forall|r: int, c: int| #[trigger] is_cell(g, r, c) implies is_built(g[r][c]) by {
        if !is_built(g[r][c]) {
            let x = lemma_frontier(g, r, c, b.cur.row as int, b.cur.col as int);
            assert(has_built_neighbor(g, x.0, x.1));
            if x.0 < h {
                assert(row_complete(g, x.0));
            } else {
                assert(row_stuck(g, x.0));
            }
        }
    }
}

} // verus!

verus! {

pub open spec fn all_directions() -> Seq<usize> {
    seq![0usize, 1, 2, 3]
}

/// An arrangement of the four directions names each of them, and nothing else.
pub proof fn lemma_direction_order(order: Seq<usize>)
    requires
        order.to_multiset() == all_directions().to_multiset(),
    ensures
        covers_directions(order),
        forall|i: int| 0 <= i < order.len() ==> #[trigger] order[i] < NUM_DIRECTIONS,
{
    let d = all_directions();
    order.to_multiset_ensures();
    d.to_multiset_ensures();
    assert forall|k: usize| k < NUM_DIRECTIONS implies #[trigger] order.contains(k) by {
        assert(d[k as int] == k);
        assert(d.contains(k));
        assert(d.to_multiset().count(k) > 0);
        assert(order.to_multiset().count(k) > 0);
    }
    assert forall|i: int| 0 <= i < order.len() implies #[trigger] order[i] < NUM_DIRECTIONS by {
        assert(order.contains(order[i]));
        assert(order.to_multiset().count(order[i]) > 0);
        assert(d.to_multiset().count(order[i]) > 0);
        assert(d.contains(order[i]));
    }
}

/// A freshly walled grid has no path and no carved square.
pub proof fn lemma_walled_grid(rows: int, cols: int)
    requires
        1 <= rows <= i32::MAX,
        1 <= cols <= i32::MAX,
    ensures
        grid_wf(walled_grid(rows, cols)),
        carving_sound(walled_grid(rows, cols)),
        no_cell_built(walled_grid(rows, cols)),
        forall|r: int, c: int|
            in_grid(walled_grid(rows, cols), r, c) ==> !is_path(#[trigger] walled_grid(rows, cols)[r][c]),
{
    let g = walled_grid(rows, cols);
    assert(g[0].len() == cols);
    assert forall|r: int, c: int| in_grid(g, r, c) implies !is_built(#[trigger] g[r][c]) && !is_path(
        g[r][c],
    ) by {
        let a: u32 = if r > 0 { 1u32 } else { 0u32 };
        let b: u32 = if r + 1 < rows { 4u32 } else { 0u32 };
        let d: u32 = if c > 0 { 8u32 } else { 0u32 };
        let e: u32 = if c + 1 < cols { 2u32 } else { 0u32 };
        assert(g[r][c] == a | b | d | e);
        assert((a | b | d | e) & 0x1000u32 == 0 && (a | b | d | e) & 0x2000u32 == 0) by (bit_vector)
            requires
                a <= 15u32,
                b <= 15u32,
                d <= 15u32,
                e <= 15u32,
        ;
    }
}

/// The square a hunt-and-kill builder starts from: for each random pick, the odd number at it or
/// just after it.
pub fn start_point(row_pick: i32, col_pick: i32) -> (p: Point)
    requires
        1 <= row_pick < i32::MAX - 1,
        1 <= col_pick < i32::MAX - 1,
    ensures
        p.row == 2 * (row_pick / 2) + 1,
        p.col == 2 * (col_pick / 2) + 1,
{
    Point { row: 2 * (row_pick / 2) + 1, col: 2 * (col_pick / 2) + 1 }
}

/// Builds a maze by hunt-and-kill from a random start, walking in random directions.
///
/// Afterwards the grid has its old shape; carving is sound (the paths are exactly the carved
/// squares, all inside the perimeter and none where an even row crosses an even column); and the
/// maze is perfect: every lattice square carved, any two joined through paths, and one passage
/// fewer than lattice squares. A lattice of a single square cannot be walked and stays walled.
#[verifier::spinoff_prover]
pub fn generate_maze(maze: &mut Maze)
    requires
        old(maze).wf(),
        grid_rows(old(maze)@) > 3,
        grid_cols(old(maze)@) > 3,
    ensures
        final(maze).wf(),
        grid_rows(final(maze)@) == grid_rows(old(maze)@),
        grid_cols(final(maze)@) == grid_cols(old(maze)@),
        carving_sound(final(maze)@),
        !single_cell_lattice(final(maze)@) ==> perfect_maze(final(maze)@),
        single_cell_lattice(final(maze)@) ==> final(maze)@ == walled_grid(
            grid_rows(old(maze)@),
            grid_cols(old(maze)@),
        ),
{
    fill_maze_with_walls(maze);
    let rows = maze.row_size();
    let cols = maze.col_size();
    proof {
        lemma_walled_grid(rows as int, cols as int);
    }
    let mut rng = new_rng();
    let row_pick = random_in_range(&mut rng, 1, rows - 2);
    let col_pick = random_in_range(&mut rng, 1, cols - 2);
    let start = start_point(row_pick, col_pick);
    let mut builder = HuntKill::new(start);
    let mut order: Vec<usize> = vec![0, 1, 2, 3];
    assert(order@ == all_directions());
    let ghost sr = start.row as int;
    let ghost sc = start.col as int;
    let ghost g0 = maze@;
    proof {
        lemma_walled_tree(g0);
    }
    loop
        invariant
            g0 == walled_grid(rows as int, cols as int),
            single_cell_lattice(maze@) ==> maze@ == g0,
            passages_joined(maze@),
            rooted(maze@, sr, sc),
            tree_count(maze@),
            no_cell_built(maze@) ==> builder.cur.row == sr && builder.cur.col == sc,
            maze.wf(),
            grid_rows(maze@) == rows,
            grid_cols(maze@) == cols,
            rows > 3,
            cols > 3,
            builder.consistent(maze@),
            carving_sound(maze@),
            within_perimeter(maze@, builder.cur.row as int, builder.cur.col as int),
            builder.highest_completed_row >= 1,
            builder.phase matches Phase::Hunting { row, .. } ==> row >= 1,
            order@.to_multiset() == all_directions().to_multiset(),
        ensures
            maze.wf(),
            grid_rows(maze@) == rows,
            grid_cols(maze@) == cols,
            builder.consistent(maze@),
            carving_sound(maze@),
            builder.phase is Finished,
            single_cell_lattice(maze@) ==> maze@ == g0,
            rooted(maze@, sr, sc),
            tree_count(maze@),
        decreases unbuilt_count(maze@), builder.phase_rank(maze@),
    {
        if let Phase::Walking = builder.phase {
            shuffle(&mut order, &mut rng);
        }
        proof {
            lemma_direction_order(order@);
            lemma_step_keeps_consistent(builder, maze@, order@);
            lemma_step_keeps_tree(builder, maze@, order@, sr, sc);
        }
        let s = builder.step(maze, &order);
        if let BuildStep::Done = s {
            break;
        }
    }
    proof {
        if !single_cell_lattice(maze@) {
            lemma_finished_complete(builder, maze@);
            assert(is_cell(maze@, 1, 1));
            lemma_perfect(maze@, sr, sc);
        }
    }
}

} // verus!

verus! {

/// The direction `hunt_dir` finds is the first, from `k` on, towards a carved neighbour.
pub proof fn lemma_hunt_dir_first(g: Grid, r: int, c: int, k: int)
    requires
        0 <= k,
    ensures
        hunt_dir(g, r, c, k) matches Some(j) ==> k <= j < 4 && built_neighbor(g, r, c, j) && forall|
            x: int,
        | k <= x < j ==> !#[trigger] built_neighbor(g, r, c, x),
    decreases 4 - k,
{
    if k < 4 && !built_neighbor(g, r, c, k) {
        lemma_hunt_dir_first(g, r, c, k + 1);
    }
}

/// The square `hunt_col` finds is the first, scanning from column `c` in steps of two, that is
/// uncarved and has a carved neighbour; its direction is the first towards such a neighbour.
pub proof fn lemma_hunt_col_first(g: Grid, r: int, c: int)
    requires
        c >= 1,
    ensures
        hunt_col(g, r, c) matches Some((j, k)) ==> {
            &&& c <= j < grid_cols(g) - 1
            &&& (j - c) % 2 == 0
            &&& !is_built(g[r][j])
            &&& 0 <= k < 4
            &&& built_neighbor(g, r, j, k)
            &&& forall|y: int| 0 <= y < k ==> !#[trigger] built_neighbor(g, r, j, y)
            &&& forall|x: int|
                c <= x < j && (x - c) % 2 == 0 && !is_built(#[trigger] g[r][x]) ==> !has_built_neighbor(
                    g,
                    r,
                    x,
                )
        },
    decreases grid_cols(g) - c,
{
    lemma_hunt_dir(g, r, c, 0);
    lemma_hunt_dir_first(g, r, c, 0);
    if c < grid_cols(g) - 1 && !(!is_built(g[r][c]) && hunt_dir(g, r, c, 0) is Some) {
        lemma_hunt_col_first(g, r, c + 2);
        if let Some((j, k)) = hunt_col(g, r, c) {
            assert forall|x: int|
                c <= x < j && (x - c) % 2 == 0 && !is_built(#[trigger] g[r][x]) implies !has_built_neighbor(
                g,
                r,
                x,
            ) by {
                if x == c {
                    assert(hunt_dir(g, r, c, 0) is None);
                } else {
                    assert(c + 2 <= x && (x - (c + 2)) % 2 == 0);
                }
            }
        }
    }
}

/// The direction `walk_choice` finds is that of the first entry of `order`, from `from` on,
/// that leads to a square a builder may move to.
pub proof fn lemma_walk_choice_first(g: Grid, cr: int, cc: int, order: Seq<usize>, from: int) -> (i: int)
    requires
        0 <= from,
        walk_choice(g, cr, cc, order, from) is Some,
    ensures
        from <= i < order.len(),
        walk_choice(g, cr, cc, order, from) == Some(order[i] as int),
        can_build(g, cr + gen_dir_row(order[i] as int), cc + gen_dir_col(order[i] as int)),
        forall|x: int|
            from <= x < i ==> !can_build(
                g,
                cr + gen_dir_row(#[trigger] order[x] as int),
                cc + gen_dir_col(order[x] as int),
            ),
    decreases order.len() - from,
{
    if can_build(g, cr + gen_dir_row(order[from] as int), cc + gen_dir_col(order[from] as int)) {
        from
    } else {
        lemma_walk_choice_first(g, cr, cc, order, from + 1)
    }
}

/// A walk step moves from the builder's square along the first direction of `order` that leads
/// to a square a builder may move to, and joins the two.
pub proof fn lemma_walk_takes_first_direction(b: HuntKill, g: Grid, order: Seq<usize>)
    requires
        b.can_step(g, order),
        b.phase is Walking,
        b.step_spec(g, order).2 is Carved,
    ensures
        ({
            let (b2, g2, s) = b.step_spec(g, order);
            match s {
                BuildStep::Carved { from, to } => {
                    &&& from == b.cur
                    &&& b2.cur == to
                    &&& can_build(g, to.row as int, to.col as int)
                    &&& exists|i: int|
                        0 <= i < order.len() && to.row == from.row + gen_dir_row(order[i] as int)
                            && to.col == from.col + gen_dir_col(order[i] as int) && forall|x: int|
                            0 <= x < i ==> !can_build(
                                g,
                                from.row + gen_dir_row(#[trigger] order[x] as int),
                                from.col + gen_dir_col(order[x] as int),
                            )
                    &&& g2 == join(
                        g,
                        from.row as int,
                        from.col as int,
                        to.row as int,
                        to.col as int,
                    )
                },
                _ => false,
            }
        }),
{
    let cr = b.cur.row as int;
    let cc = b.cur.col as int;
    let i = lemma_walk_choice_first(g, cr, cc, order, 0);
    let k = order[i] as int;
    let nr = cr + gen_dir_row(k);
    let nc = cc + gen_dir_col(k);
    assert(can_build(g, nr, nc));
    assert(point_of(nr, nc).row as int == nr && point_of(nr, nc).col as int == nc);
}

/// A hunt joins, in the row it scans, the leftmost uncarved lattice square that has a carved
/// lattice neighbour, to its first carved neighbour (north, east, south, west): every uncarved
/// square to its left in that row is cut off from the carved ones.
pub proof fn lemma_hunt_joins_leftmost(b: HuntKill, g: Grid, order: Seq<usize>)
    requires
        b.can_step(g, order),
        b.phase is Hunting,
        b.step_spec(g, order).2 is HuntJoined,
    ensures
        ({
            let (b2, g2, s) = b.step_spec(g, order);
            match s {
                BuildStep::HuntJoined { from, to } => {
                    &&& b.phase matches Phase::Hunting { row, .. } && from.row == row
                    &&& b2.cur == from
                    &&& 1 <= from.col < grid_cols(g) - 1 && from.col % 2 == 1
                    &&& !is_built(g[from.row as int][from.col as int])
                    &&& within_perimeter(g, to.row as int, to.col as int)
                    &&& is_built(g[to.row as int][to.col as int])
                    &&& exists|k: int|
                        0 <= k < 4 && to.row == from.row + gen_dir_row(k) && to.col == from.col
                            + gen_dir_col(k) && forall|y: int|
                            0 <= y < k ==> !#[trigger] built_neighbor(
                                g,
                                from.row as int,
                                from.col as int,
                                y,
                            )
                    &&& forall|c: int|
                        1 <= c < from.col && c % 2 == 1 && !is_built(
                            #[trigger] g[from.row as int][c],
                        ) ==> !has_built_neighbor(g, from.row as int, c)
                    &&& g2 == join(
                        g,
                        from.row as int,
                        from.col as int,
                        to.row as int,
                        to.col as int,
                    )
                },
                _ => false,
            }
        }),
{
    if let Phase::Hunting { row, highest_set } = b.phase {
        lemma_hunt_col_first(g, row as int, 1);
        if let Some((c, k)) = hunt_col(g, row as int, 1) {
            let nr = row + gen_dir_row(k);
            let nc = c + gen_dir_col(k);
            assert(built_neighbor(g, row as int, c, k));
            assert(point_of(row as int, c).col as int == c);
            assert(point_of(nr, nc).row as int == nr && point_of(nr, nc).col as int == nc);
            assert forall|x: int|
                1 <= x < c && x % 2 == 1 && !is_built(#[trigger] g[row as int][x]) implies !has_built_neighbor(
                g,
                row as int,
                x,
            ) by {
                assert((x - 1) % 2 == 0);
            }
        }
    }
}

} // verus!
