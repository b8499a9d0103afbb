//! Breadth-first measurement of path distances from a square.
use vstd::prelude::*;
use crate::carving::{card_dir_col, card_dir_row, cardinal_direction, NUM_DIRECTIONS};
use crate::count::{count_rect, lemma_count_strict};
use crate::grid::{grid_cols, grid_rows, grid_wf, in_grid, is_path, Grid, Maze, Point, MEASURE, PATH_BIT};

verus! {

/// Distances by square; `None` where the measurement never reached.
pub type Dist = Seq<Seq<Option<u64>>>;

/// A square a traversal may enter: a path inside the grid without any of the `skip` bits.
pub open spec fn open_square(g: Grid, skip: u32, r: int, c: int) -> bool {
    in_grid(g, r, c) && is_path(g[r][c]) && g[r][c] & skip == 0
}

pub open spec fn reached(d: Dist, r: int, c: int) -> bool {
    d[r][c] is Some
}

pub open spec fn dist_of(d: Dist, r: int, c: int) -> int {
    d[r][c]->0 as int
}

/// The neighbour of `(r, c)` in cardinal direction `k`.
pub open spec fn nb_row(r: int, k: int) -> int {
    r + card_dir_row(k)
}

pub open spec fn nb_col(c: int, k: int) -> int {
    c + card_dir_col(k)
}

/// `d` holds breadth-first distances from `(sr, sc)` through the open squares of `g`:
/// the start is at distance 0; every other reached square is open and has a reached neighbour
/// one closer; and every open neighbour of a reached square is reached, at most one further.
pub open spec fn bfs_distances(g: Grid, skip: u32, sr: int, sc: int, d: Dist) -> bool {
    &&& d.len() == g.len()
    &&& forall|r: int| 0 <= r < g.len() ==> #[trigger] d[r].len() == g[r].len()
    &&& d[sr][sc] == Some(0u64)
    &&& forall|r: int, c: int|
        #![trigger d[r][c]]
        in_grid(g, r, c) && reached(d, r, c) && !(r == sr && c == sc) ==> {
            &&& open_square(g, skip, r, c)
            &&& exists|k: int|
                0 <= k < 4 && in_grid(g, nb_row(r, k), nb_col(c, k)) && reached(
                    d,
                    nb_row(r, k),
                    nb_col(c, k),
                ) && #[trigger] dist_of(d, nb_row(r, k), nb_col(c, k)) + 1 == dist_of(d, r, c)
        }
    &&& forall|r: int, c: int, k: int|
        #![trigger d[r][c], d[nb_row(r, k)][nb_col(c, k)]]
        in_grid(g, r, c) && reached(d, r, c) && 0 <= k < 4 && open_square(
            g,
            skip,
            nb_row(r, k),
            nb_col(c, k),
        ) ==> reached(d, nb_row(r, k), nb_col(c, k)) && dist_of(d, nb_row(r, k), nb_col(c, k))
            <= dist_of(d, r, c) + 1
}

/// A walk from its first square through open squares, one cardinal step at a time.
pub open spec fn is_open_walk(g: Grid, skip: u32, w: Seq<(int, int)>) -> bool {
    &&& w.len() >= 1
    &&& in_grid(g, w[0].0, w[0].1)
    &&& forall|i: int| 1 <= i < w.len() ==> #[trigger] open_square(g, skip, w[i].0, w[i].1)
    &&& forall|i: int|
        0 <= i < w.len() - 1 ==> #[trigger] adjacent(w[i].0, w[i].1, w[i + 1].0, w[i + 1].1)
}

/// `(ar, ac)` and `(br, bc)` are one cardinal step apart.
pub open spec fn adjacent(ar: int, ac: int, br: int, bc: int) -> bool {
    (ar == br && (ac - bc == 1 || bc - ac == 1)) || (ac == bc && (ar - br == 1 || br - ar == 1))
}

/// The visiting order of a breadth-first traversal: no square twice, the start first, each
/// square reached, every reached square present, distances never decreasing.
pub open spec fn bfs_order(g: Grid, sr: int, sc: int, d: Dist, order: Seq<Point>) -> bool {
    &&& order.len() >= 1
    &&& order[0].row == sr && order[0].col == sc
    &&& forall|i: int|
        #![trigger order[i]]
        0 <= i < order.len() ==> in_grid(g, order[i].row as int, order[i].col as int) && reached(
            d,
            order[i].row as int,
            order[i].col as int,
        )
    &&& forall|i: int, j: int|
        #![trigger order[i], order[j]]
        0 <= i < j < order.len() ==> order[i] != order[j] && dist_of(
            d,
            order[i].row as int,
            order[i].col as int,
        ) <= dist_of(d, order[j].row as int, order[j].col as int)
    &&& forall|r: int, c: int|
        #![trigger d[r][c]]
        in_grid(g, r, c) && reached(d, r, c) ==> exists|i: int|
            0 <= i < order.len() && #[trigger] order[i] == (Point { row: r as i32, col: c as i32 })
}

/// The distance grid, by rows, with the largest distance measured.
pub struct DistanceMap {
    pub distances: Vec<Vec<Option<u64>>>,
    pub max: u64,
}

impl DistanceMap {
    pub open spec fn dist(&self) -> Dist {
        self.distances@.map_values(|row: Vec<Option<u64>>| row@)
    }
}

/// A distance grid of the maze's shape with nothing reached.
fn empty_distances(rows: i32, cols: i32) -> (d: Vec<Vec<Option<u64>>>)
    requires
        rows >= 1,
        cols >= 1,
    ensures
        d@.len() == rows,
        forall|r: int| 0 <= r < rows ==> (#[trigger] d@[r])@.len() == cols,
        forall|r: int, c: int| 0 <= r < rows && 0 <= c < cols ==> (#[trigger] d@[r]@[c]) is None,
{
    let mut d: Vec<Vec<Option<u64>>> = Vec::new();
    let mut r: i32 = 0;
    while r < rows
        invariant
            0 <= r <= rows,
            cols >= 1,
            d@.len() == r,
            forall|i: int| 0 <= i < r ==> (#[trigger] d@[i])@.len() == cols,
            forall|i: int, c: int| 0 <= i < r && 0 <= c < cols ==> (#[trigger] d@[i]@[c]) is None,
        decreases rows - r,
    {
        let mut row: Vec<Option<u64>> = Vec::new();
        let mut c: i32 = 0;
        while c < cols
            invariant
                0 <= c <= cols,
                row@.len() == c,
                forall|j: int| 0 <= j < c ==> (#[trigger] row@[j]) is None,
            decreases cols - c,
        {
            row.push(None);
            c = c + 1;
        }
        d.push(row);
        r = r + 1;
    }
    d
}

} // verus!

verus! {

pub open spec fn dview(v: Seq<Vec<Option<u64>>>) -> Dist {
    v.map_values(|row: Vec<Option<u64>>| row@)
}

pub open spec fn same_shape_dist(d: Dist, g: Grid) -> bool {
    &&& d.len() == g.len()
    &&& forall|r: int| 0 <= r < g.len() ==> #[trigger] d[r].len() == g[r].len()
}

pub open spec fn pt(r: int, c: int) -> Point {
    Point { row: r as i32, col: c as i32 }
}

pub open spec fn none_count(g: Grid, d: Dist) -> nat {
    count_rect(|r: int, c: int| !reached(d, r, c), grid_rows(g), grid_cols(g))
}

/// What a breadth-first traversal knows after `head` squares of `order` are processed.
#[verifier::opaque]
pub open spec fn bfs_inv(
    g: Grid,
    skip: u32,
    sr: int,
    sc: int,
    d: Dist,
    order: Seq<Point>,
    head: int,
) -> bool {
    &&& grid_wf(g)
    &&& same_shape_dist(d, g)
    &&& in_grid(g, sr, sc)
    &&& 0 <= head <= order.len()
    &&& order.len() >= 1
    &&& order[0] == pt(sr, sc)
    &&& d[sr][sc] == Some(0u64)
    &&& forall|i: int|
        #![trigger order[i]]
        0 <= i < order.len() ==> in_grid(g, order[i].row as int, order[i].col as int) && reached(
            d,
            order[i].row as int,
            order[i].col as int,
        ) && dist_of(d, order[i].row as int, order[i].col as int) <= i
    &&& forall|i: int, j: int|
        #![trigger order[i], order[j]]
        0 <= i < j < order.len() ==> order[i] != order[j] && dist_of(
            d,
            order[i].row as int,
            order[i].col as int,
        ) <= dist_of(d, order[j].row as int, order[j].col as int)
    &&& forall|r: int, c: int|
        #![trigger d[r][c]]
        in_grid(g, r, c) && reached(d, r, c) ==> exists|i: int|
            0 <= i < order.len() && #[trigger] order[i] == pt(r, c)
    &&& head < order.len() ==> forall|j: int|
        #![trigger order[j]]
        0 <= j < order.len() ==> dist_of(d, order[j].row as int, order[j].col as int) <= dist_of(
            d,
            order[head].row as int,
            order[head].col as int,
        ) + 1
    &&& forall|i: int, k: int|
        #![trigger order[i], nb_row(order[i].row as int, k)]
        0 <= i < head && 0 <= k < 4 && open_square(
            g,
            skip,
            nb_row(order[i].row as int, k),
            nb_col(order[i].col as int, k),
        ) ==> reached(d, nb_row(order[i].row as int, k), nb_col(order[i].col as int, k)) && dist_of(
            d,
            nb_row(order[i].row as int, k),
            nb_col(order[i].col as int, k),
        ) <= dist_of(d, order[i].row as int, order[i].col as int) + 1
    &&& forall|r: int, c: int|
        #![trigger d[r][c]]
        in_grid(g, r, c) && reached(d, r, c) && !(r == sr && c == sc) ==> {
            &&& open_square(g, skip, r, c)
            &&& exists|k: int|
                0 <= k < 4 && in_grid(g, nb_row(r, k), nb_col(c, k)) && reached(
                    d,
                    nb_row(r, k),
                    nb_col(c, k),
                ) && #[trigger] dist_of(d, nb_row(r, k), nb_col(c, k)) + 1 == dist_of(d, r, c)
        }
}

} // verus!

verus! {

pub open spec fn opposite(k: int) -> int {
    if k == 0 {
        2
    } else if k == 1 {
        3
    } else if k == 2 {
        0
    } else {
        1
    }
}

pub open spec fn set_dist(d: Dist, r: int, c: int, v: u64) -> Dist {
    d.update(r, d[r].update(c, Some(v)))
}

/// Discovering the open, unreached neighbour `k` of the square being processed keeps the
/// traversal's invariant, leaves every earlier distance as it was, and lowers the count of
/// unreached squares.
#[verifier::spinoff_prover]
proof fn lemma_bfs_push(
    g: Grid,
    skip: u32,
    sr: int,
    sc: int,
    d: Dist,
    order: Seq<Point>,
    head: int,
    k: int,
)
    requires
        bfs_inv(g, skip, sr, sc, d, order, head),
        head < order.len(),
        0 <= k < 4,
        open_square(
            g,
            skip,
            nb_row(order[head].row as int, k),
            nb_col(order[head].col as int, k),
        ),
        !reached(d, nb_row(order[head].row as int, k), nb_col(order[head].col as int, k)),
        dist_of(d, order[head].row as int, order[head].col as int) + 1 <= u64::MAX,
    ensures
        ({
            let pr = order[head].row as int;
            let pc = order[head].col as int;
            let qr = nb_row(pr, k);
            let qc = nb_col(pc, k);
            let d2 = set_dist(d, qr, qc, (dist_of(d, pr, pc) + 1) as u64);
            let order2 = order.push(pt(qr, qc));
            &&& bfs_inv(g, skip, sr, sc, d2, order2, head)
            &&& none_count(g, d2) < none_count(g, d)
            &&& forall|r: int, c: int|
                #![trigger d2[r][c]]
                in_grid(g, r, c) && reached(d, r, c) ==> d2[r][c] == d[r][c]
        }),
{
    reveal(bfs_inv);
    let pr = order[head].row as int;
    let pc = order[head].col as int;
    let dp = dist_of(d, pr, pc);
    let qr = nb_row(pr, k);
    let qc = nb_col(pc, k);
    let d2 = set_dist(d, qr, qc, (dp + 1) as u64);
    let order2 = order.push(pt(qr, qc));
    let n = order.len() as int;
    assert(in_grid(g, pr, pc));
    assert(g[qr].len() == g[0].len());
    assert(order2[n] == pt(qr, qc));
    assert(pt(qr, qc).row as int == qr && pt(qr, qc).col as int == qc);
    assert forall|r: int, c: int| #![trigger d2[r][c]] in_grid(g, r, c) && reached(d, r, c) implies d2[r][c]
        == d[r][c] by {
        assert(!(r == qr && c == qc));
    }
    assert(d2[qr][qc] == Some((dp + 1) as u64));
    // element properties
    assert forall|i: int| #![trigger order2[i]] 0 <= i < order2.len() implies in_grid(
        g,
        order2[i].row as int,
        order2[i].col as int,
    ) && reached(d2, order2[i].row as int, order2[i].col as int) && dist_of(
        d2,
        order2[i].row as int,
        order2[i].col as int,
    ) <= i by {
        if i < n {
            assert(order2[i] == order[i]);
            assert(in_grid(g, order[i].row as int, order[i].col as int));
            assert(d2[order[i].row as int][order[i].col as int] == d[order[i].row as int][order[i].col as int]);
        } else {
            assert(dp <= head);
        }
    }
    assert forall|i: int, j: int| #![trigger order2[i], order2[j]] 0 <= i < j < order2.len() implies order2[i]
        != order2[j] && dist_of(d2, order2[i].row as int, order2[i].col as int) <= dist_of(
        d2,
        order2[j].row as int,
        order2[j].col as int,
    ) by {
        assert(order2[i] == order[i]);
        assert(in_grid(g, order[i].row as int, order[i].col as int));
        assert(reached(d, order[i].row as int, order[i].col as int));
        assert(d2[order[i].row as int][order[i].col as int] == d[order[i].row as int][order[i].col as int]);
        if j < n {
            assert(order2[j] == order[j]);
            assert(in_grid(g, order[j].row as int, order[j].col as int));
            assert(d2[order[j].row as int][order[j].col as int] == d[order[j].row as int][order[j].col as int]);
            assert(order[i] != order[j]);
        } else {
            assert(order[i] != pt(qr, qc));
            assert(dist_of(d, order[i].row as int, order[i].col as int) <= dp + 1);
        }
    }
    assert forall|r: int, c: int| #![trigger d2[r][c]] in_grid(g, r, c) && reached(d2, r, c) implies exists|
        i: int,
    | 0 <= i < order2.len() && #[trigger] order2[i] == pt(r, c) by {
        if r == qr && c == qc {
            assert(order2[n] == pt(r, c));
        } else {
            assert(reached(d, r, c));
            let i = choose|i: int| 0 <= i < order.len() && #[trigger] order[i] == pt(r, c);
            assert(order2[i] == pt(r, c));
        }
    }
    assert forall|j: int| #![trigger order2[j]] 0 <= j < order2.len() implies dist_of(
        d2,
        order2[j].row as int,
        order2[j].col as int,
    ) <= dist_of(d2, order2[head].row as int, order2[head].col as int) + 1 by {
        assert(order2[head] == order[head]);
        assert(d2[pr][pc] == d[pr][pc]);
        if j < n {
            assert(order2[j] == order[j]);
            assert(in_grid(g, order[j].row as int, order[j].col as int));
            assert(d2[order[j].row as int][order[j].col as int] == d[order[j].row as int][order[j].col as int]);
        }
    }
    assert forall|i: int, kk: int|
        #![trigger order2[i], nb_row(order2[i].row as int, kk)]
        0 <= i < head && 0 <= kk < 4 && open_square(
            g,
            skip,
            nb_row(order2[i].row as int, kk),
            nb_col(order2[i].col as int, kk),
        ) implies reached(d2, nb_row(order2[i].row as int, kk), nb_col(order2[i].col as int, kk))
        && dist_of(d2, nb_row(order2[i].row as int, kk), nb_col(order2[i].col as int, kk))
        <= dist_of(d2, order2[i].row as int, order2[i].col as int) + 1 by {
        assert(order2[i] == order[i]);
        let ar = order[i].row as int;
        let ac = order[i].col as int;
        assert(in_grid(g, ar, ac));
        assert(reached(d, nb_row(ar, kk), nb_col(ac, kk)));
        assert(d2[nb_row(ar, kk)][nb_col(ac, kk)] == d[nb_row(ar, kk)][nb_col(ac, kk)]);
        assert(d2[ar][ac] == d[ar][ac]);
    }
    assert forall|r: int, c: int| #![trigger d2[r][c]] in_grid(g, r, c) && reached(d2, r, c) && !(r == sr
        && c == sc) implies {
        &&& open_square(g, skip, r, c)
        &&& exists|kk: int|
            0 <= kk < 4 && in_grid(g, nb_row(r, kk), nb_col(c, kk)) && reached(
                d2,
                nb_row(r, kk),
                nb_col(c, kk),
            ) && #[trigger] dist_of(d2, nb_row(r, kk), nb_col(c, kk)) + 1 == dist_of(d2, r, c)
    } by {
        if r == qr && c == qc {
            let o = opposite(k);
            assert(nb_row(r, o) == pr && nb_col(c, o) == pc);
            assert(d2[pr][pc] == d[pr][pc]);
            assert(dist_of(d2, nb_row(r, o), nb_col(c, o)) + 1 == dist_of(d2, r, c));
        } else {
            assert(reached(d, r, c));
            assert(d2[r][c] == d[r][c]);
            let kk = choose|kk: int|
                0 <= kk < 4 && in_grid(g, nb_row(r, kk), nb_col(c, kk)) && reached(
                    d,
                    nb_row(r, kk),
                    nb_col(c, kk),
                ) && #[trigger] dist_of(d, nb_row(r, kk), nb_col(c, kk)) + 1 == dist_of(d, r, c);
            assert(d2[nb_row(r, kk)][nb_col(c, kk)] == d[nb_row(r, kk)][nb_col(c, kk)]);
            assert(dist_of(d2, nb_row(r, kk), nb_col(c, kk)) + 1 == dist_of(d2, r, c));
        }
    }
    assert(d2[sr][sc] == d[sr][sc]);
    assert(order2[0] == order[0]);
    let f2 = |r: int, c: int| !reached(d2, r, c);
    let f1 = |r: int, c: int| !reached(d, r, c);
    assert forall|r: int, c: int|
        0 <= r < grid_rows(g) && 0 <= c < grid_cols(g) && #[trigger] f2(r, c) implies f1(r, c) by {
        if reached(d, r, c) {
            assert(d2[r][c] == d[r][c]);
        }
    }
    lemma_count_strict(f2, f1, grid_rows(g), grid_cols(g), qr, qc);
}

} // verus!

verus! {

fn dist_get(d: &Vec<Vec<Option<u64>>>, r: i32, c: i32) -> (v: Option<u64>)
    requires
        0 <= r < d@.len(),
        0 <= c < dview(d@)[r as int].len(),
    ensures
        v == dview(d@)[r as int][c as int],
{
    assert(dview(d@)[r as int] == d@[r as int]@);
    d[r as usize][c as usize]
}

fn dist_set(d: &mut Vec<Vec<Option<u64>>>, r: i32, c: i32, v: u64)
    requires
        0 <= r < old(d)@.len(),
        0 <= c < dview(old(d)@)[r as int].len(),
    ensures
        final(d)@.len() == old(d)@.len(),
        dview(final(d)@) == set_dist(dview(old(d)@), r as int, c as int, v),
{
    assert(dview(old(d)@)[r as int] == old(d)@[r as int]@);
    d[r as usize][c as usize] = Some(v);
    assert(dview(d@) =~= set_dist(dview(old(d)@), r as int, c as int, v));
}

/// Once every square of the order is processed, the invariant gives breadth-first distances
/// and a breadth-first order.
proof fn lemma_bfs_done(g: Grid, skip: u32, sr: int, sc: int, d: Dist, order: Seq<Point>)
    requires
        bfs_inv(g, skip, sr, sc, d, order, order.len() as int),
    ensures
        bfs_distances(g, skip, sr, sc, d),
        bfs_order(g, sr, sc, d, order),
{
    reveal(bfs_inv);
    assert forall|r: int, c: int, k: int|
        #![trigger d[r][c], d[nb_row(r, k)][nb_col(c, k)]]
        in_grid(g, r, c) && reached(d, r, c) && 0 <= k < 4 && open_square(
            g,
            skip,
            nb_row(r, k),
            nb_col(c, k),
        ) implies reached(d, nb_row(r, k), nb_col(c, k)) && dist_of(d, nb_row(r, k), nb_col(c, k))
        <= dist_of(d, r, c) + 1 by {
        let i = choose|i: int| 0 <= i < order.len() && #[trigger] order[i] == pt(r, c);
        assert(order[i].row as int == r && order[i].col as int == c);
        assert(nb_row(order[i].row as int, k) == nb_row(r, k));
    }
}

/// The facts about the square being processed that a traversal step needs.
proof fn lemma_bfs_facts(
    g: Grid,
    skip: u32,
    sr: int,
    sc: int,
    d: Dist,
    order: Seq<Point>,
    head: int,
)
    requires
        bfs_inv(g, skip, sr, sc, d, order, head),
        head < order.len(),
    ensures
        grid_wf(g),
        same_shape_dist(d, g),
        in_grid(g, order[head].row as int, order[head].col as int),
        reached(d, order[head].row as int, order[head].col as int),
        dist_of(d, order[head].row as int, order[head].col as int) <= head,
        forall|r: int, c: int|
            #![trigger d[r][c]]
            in_grid(g, r, c) && reached(d, r, c) ==> dist_of(d, r, c) <= dist_of(
                d,
                order[head].row as int,
                order[head].col as int,
            ) + 1,
{
    reveal(bfs_inv);
    assert forall|r: int, c: int|
        #![trigger d[r][c]]
        in_grid(g, r, c) && reached(d, r, c) implies dist_of(d, r, c) <= dist_of(
            d,
            order[head].row as int,
            order[head].col as int,
        ) + 1 by {
        let i = choose|i: int| 0 <= i < order.len() && #[trigger] order[i] == pt(r, c);
        assert(order[i].row as int == r && order[i].col as int == c);
    }
}

/// After trying all four directions from the square being processed, it counts as processed.
#[verifier::spinoff_prover]
proof fn lemma_bfs_advance(
    g: Grid,
    skip: u32,
    sr: int,
    sc: int,
    d: Dist,
    order: Seq<Point>,
    head: int,
    bias: int,
)
    requires
        bfs_inv(g, skip, sr, sc, d, order, head),
        head < order.len(),
        0 <= bias < 4,
        forall|jj: int|
            #![trigger nb_row(order[head].row as int, (bias + jj) % 4)]
            0 <= jj < 4 && open_square(
                g,
                skip,
                nb_row(order[head].row as int, (bias + jj) % 4),
                nb_col(order[head].col as int, (bias + jj) % 4),
            ) ==> reached(
                d,
                nb_row(order[head].row as int, (bias + jj) % 4),
                nb_col(order[head].col as int, (bias + jj) % 4),
            ) && dist_of(
                d,
                nb_row(order[head].row as int, (bias + jj) % 4),
                nb_col(order[head].col as int, (bias + jj) % 4),
            ) <= dist_of(d, order[head].row as int, order[head].col as int) + 1,
    ensures
        bfs_inv(g, skip, sr, sc, d, order, head + 1),
{
    let pr = order[head].row as int;
    let pc = order[head].col as int;
    assert forall|k: int|
        0 <= k < 4 && open_square(g, skip, nb_row(pr, k), nb_col(pc, k)) implies reached(
        d,
        nb_row(pr, k),
        nb_col(pc, k),
    ) && dist_of(d, nb_row(pr, k), nb_col(pc, k)) <= dist_of(d, pr, pc) + 1 by {
        let jj = if k >= bias {
            k - bias
        } else {
            k - bias + 4
        };
        assert((bias + jj) % 4 == k);
        assert(nb_row(order[head].row as int, (bias + jj) % 4) == nb_row(pr, k));
    }
    reveal(bfs_inv);
    assert forall|i: int, k: int|
        #![trigger order[i], nb_row(order[i].row as int, k)]
        0 <= i < head + 1 && 0 <= k < 4 && open_square(
            g,
            skip,
            nb_row(order[i].row as int, k),
            nb_col(order[i].col as int, k),
        ) implies reached(d, nb_row(order[i].row as int, k), nb_col(order[i].col as int, k))
        && dist_of(d, nb_row(order[i].row as int, k), nb_col(order[i].col as int, k)) <= dist_of(
        d,
        order[i].row as int,
        order[i].col as int,
    ) + 1 by {
        if i == head {
            assert(nb_row(order[i].row as int, k) == nb_row(pr, k));
        }
    }
    if head + 1 < order.len() {
        assert(dist_of(d, pr, pc) <= dist_of(
            d,
            order[head + 1].row as int,
            order[head + 1].col as int,
        ));
    }
}

/// The traversal's invariant holds once the start alone is reached and listed.
proof fn lemma_bfs_start(g: Grid, skip: u32, sr: int, sc: int, d: Dist, order: Seq<Point>)
    requires
        grid_wf(g),
        same_shape_dist(d, g),
        in_grid(g, sr, sc),
        order == seq![pt(sr, sc)],
        d[sr][sc] == Some(0u64),
        forall|r: int, c: int| in_grid(g, r, c) && !(r == sr && c == sc) ==> !(#[trigger] reached(d, r, c)),
    ensures
        bfs_inv(g, skip, sr, sc, d, order, 0),
{
    reveal(bfs_inv);
    assert forall|r: int, c: int| #![trigger d[r][c]] in_grid(g, r, c) && reached(d, r, c) implies exists|
        i: int,
    | 0 <= i < order.len() && #[trigger] order[i] == pt(r, c) by {
        assert(order[0] == pt(r, c));
    }
}

/// Breadth-first traversal from `start` through the open squares (paths without any `skip`
/// bit), trying the four directions from `bias` on at each square. Returns the visiting order
/// and the distance of every reached square. Both are fully determined by the contract: the
/// distances are the shortest walk lengths (`lemma_distance_is_walk_length`,
/// `lemma_distance_is_shortest`, `lemma_bfs_distances_unique`) and the order is the discovery
/// order (`lemma_traversal_order_unique`).
#[verifier::spinoff_prover]
pub fn breadth_first(maze: &Maze, start: Point, skip: u32, bias: usize) -> (res: (
    Vec<Point>,
    Vec<Vec<Option<u64>>>,
))
    requires
        maze.wf(),
        in_grid(maze@, start.row as int, start.col as int),
        bias < NUM_DIRECTIONS,
    ensures
        same_shape_dist(dview(res.1@), maze@),
        bfs_distances(maze@, skip, start.row as int, start.col as int, dview(res.1@)),
        bfs_order(maze@, start.row as int, start.col as int, dview(res.1@), res.0@),
        discovery_order(res.0@, bias as int),
{
    let ghost g = maze@;
    let ghost sr = start.row as int;
    let ghost sc = start.col as int;
    let rows = maze.row_size();
    let cols = maze.col_size();
    let mut dist = empty_distances(rows, cols);
    proof {
        assert forall|r: int| 0 <= r < g.len() implies #[trigger] dview(dist@)[r].len() == g[r].len() by {
            assert(g[r].len() == g[0].len());
        }
    }
    dist_set(&mut dist, start.row, start.col, 0);
    let mut order: Vec<Point> = Vec::new();
    order.push(start);
    let mut head: usize = 0;
    proof {
        let d = dview(dist@);
        assert(order@ =~= seq![pt(sr, sc)]);
        assert forall|r: int, c: int| in_grid(g, r, c) && !(r == sr && c == sc) implies !(
        #[trigger] reached(d, r, c)) by {
            assert(g[r].len() == g[0].len());
        }
        lemma_bfs_start(g, skip, sr, sc, d, order@);
    }
    while head < order.len()
        invariant
            maze@ == g,
            maze.wf(),
            rows == grid_rows(g),
            cols == grid_cols(g),
            bias < NUM_DIRECTIONS,
            head <= order@.len(),
            bfs_inv(g, skip, sr, sc, dview(dist@), order@, head as int),
            discovery_order(order@, bias as int),
            forall|x: int| 1 <= x < order@.len() ==> #[trigger] first_adjacent(order@, x, 0) < head,
        decreases none_count(g, dview(dist@)) + order@.len() - head,
    {
        proof {
            lemma_bfs_facts(g, skip, sr, sc, dview(dist@), order@, head as int);
        }
        let p = order[head];
        assert(g[p.row as int].len() == g[0].len());
        let dp = match dist_get(&dist, p.row, p.col) {
            Some(v) => v,
            None => 0,
        };
        let ghost m0 = none_count(g, dview(dist@)) + order@.len();
        let mut j: usize = 0;
        while j < NUM_DIRECTIONS
            invariant
                maze@ == g,
                maze.wf(),
                rows == grid_rows(g),
                cols == grid_cols(g),
                bias < NUM_DIRECTIONS,
                head < order@.len(),
                bfs_inv(g, skip, sr, sc, dview(dist@), order@, head as int),
                p == order@[head as int],
                in_grid(g, p.row as int, p.col as int),
                dp <= head,
                same_shape_dist(dview(dist@), g),
                dp == dist_of(dview(dist@), p.row as int, p.col as int),
                j <= NUM_DIRECTIONS,
                none_count(g, dview(dist@)) + order@.len() <= m0,
                discovery_order(order@, bias as int),
                forall|x: int|
                    1 <= x < order@.len() ==> #[trigger] first_adjacent(order@, x, 0) < head || (
                    first_adjacent(order@, x, 0) == head && discovery_rank(order@, bias as int, x)
                        < j),
                forall|jj: int|
                    #![trigger nb_row(p.row as int, (bias + jj) % 4)]
                    0 <= jj < j && open_square(
                        g,
                        skip,
                        nb_row(p.row as int, (bias + jj) % 4),
                        nb_col(p.col as int, (bias + jj) % 4),
                    ) ==> reached(
                        dview(dist@),
                        nb_row(p.row as int, (bias + jj) % 4),
                        nb_col(p.col as int, (bias + jj) % 4),
                    ) && dist_of(
                        dview(dist@),
                        nb_row(p.row as int, (bias + jj) % 4),
                        nb_col(p.col as int, (bias + jj) % 4),
                    ) <= dp + 1,
            decreases NUM_DIRECTIONS - j,
        {
            let k = (bias + j) % 4;
            let dir = cardinal_direction(k);
            let q = Point { row: p.row + dir.row, col: p.col + dir.col };
            let ghost d0 = dview(dist@);
            proof {
                lemma_bfs_facts(g, skip, sr, sc, d0, order@, head as int);
            }
            if 0 <= q.row && q.row < rows && 0 <= q.col && q.col < cols {
                assert(g[q.row as int].len() == g[0].len());
                let v = maze.get(q.row, q.col);
                if v & PATH_BIT != 0 && v & skip == 0 {
                    if dist_get(&dist, q.row, q.col).is_none() {
                        let n = order.len();
                        assert(dp < n);
                        proof {
                            lemma_bfs_push(g, skip, sr, sc, d0, order@, head as int, k as int);
                            lemma_bfs_unreached_isolated(
                                g,
                                skip,
                                sr,
                                sc,
                                d0,
                                order@,
                                head as int,
                                q.row as int,
                                q.col as int,
                            );
                            lemma_discovery_push(order@, bias as int, head as int, j as int, k as int, q);
                        }
                        dist_set(&mut dist, q.row, q.col, dp + 1);
                        order.push(q);
                        proof {
                            lemma_bfs_facts(g, skip, sr, sc, dview(dist@), order@, head as int);
                        }
                    }
                }
            }
            j = j + 1;
        }
        proof {
            lemma_bfs_advance(g, skip, sr, sc, dview(dist@), order@, head as int, bias as int);
        }
        head = head + 1;
    }
    proof {
        lemma_bfs_done(g, skip, sr, sc, dview(dist@), order@);
    }
    (order, dist)
}

} // verus!

verus! {

/// One cardinal step leads from `(r, c)` to `(nb_row(r, k), nb_col(c, k))` and back.
pub proof fn lemma_adjacent_direction(ar: int, ac: int, br: int, bc: int) -> (k: int)
    requires
        adjacent(ar, ac, br, bc),
    ensures
        0 <= k < 4,
        nb_row(ar, k) == br,
        nb_col(ac, k) == bc,
{
    if br == ar - 1 {
        0
    } else if bc == ac + 1 {
        1
    } else if br == ar + 1 {
        2
    } else {
        3
    }
}

/// The neighbour one closer to the start of a reached square other than the start.
proof fn lemma_bfs_parent(g: Grid, skip: u32, sr: int, sc: int, d: Dist, r: int, c: int) -> (k: int)
    requires
        bfs_distances(g, skip, sr, sc, d),
        in_grid(g, r, c),
        reached(d, r, c),
        !(r == sr && c == sc),
    ensures
        open_square(g, skip, r, c),
        0 <= k < 4,
        in_grid(g, nb_row(r, k), nb_col(c, k)),
        reached(d, nb_row(r, k), nb_col(c, k)),
        dist_of(d, nb_row(r, k), nb_col(c, k)) + 1 == dist_of(d, r, c),
{
    assert(d[r][c] == d[r][c]);
    choose|k: int|
        0 <= k < 4 && in_grid(g, nb_row(r, k), nb_col(c, k)) && reached(
            d,
            nb_row(r, k),
            nb_col(c, k),
        ) && #[trigger] dist_of(d, nb_row(r, k), nb_col(c, k)) + 1 == dist_of(d, r, c)
}

/// An open walk extended by one more adjacent open square.
pub proof fn lemma_open_walk_push(g: Grid, skip: u32, w: Seq<(int, int)>, p: (int, int))
    requires
        is_open_walk(g, skip, w),
        open_square(g, skip, p.0, p.1),
        adjacent(w.last().0, w.last().1, p.0, p.1),
    ensures
        is_open_walk(g, skip, w.push(p)),
        w.push(p)[0] == w[0],
        w.push(p).last() == p,
        w.push(p).len() == w.len() + 1,
{
    let v = w.push(p);
    let n = w.len() as int;
    assert(v[n] == p);
    assert forall|i: int| 1 <= i < v.len() implies #[trigger] open_square(g, skip, v[i].0, v[i].1) by {
        if i < n {
            assert(v[i] == w[i]);
        }
    }
    assert forall|i: int| 0 <= i < v.len() - 1 implies #[trigger] adjacent(
        v[i].0,
        v[i].1,
        v[i + 1].0,
        v[i + 1].1,
    ) by {
        assert(v[i] == w[i]);
        if i + 1 < n {
            assert(v[i + 1] == w[i + 1]);
            assert(adjacent(w[i].0, w[i].1, w[i + 1].0, w[i + 1].1));
        }
    }
}

/// Every reached square is the end of an open walk from the start whose number of steps is its
/// distance.
pub proof fn lemma_distance_is_walk_length(
    g: Grid,
    skip: u32,
    sr: int,
    sc: int,
    d: Dist,
    r: int,
    c: int,
) -> (w: Seq<(int, int)>)
    requires
        grid_wf(g),
        in_grid(g, sr, sc),
        bfs_distances(g, skip, sr, sc, d),
        in_grid(g, r, c),
        reached(d, r, c),
    ensures
        is_open_walk(g, skip, w),
        w[0] == (sr, sc),
        w.last() == (r, c),
        w.len() == dist_of(d, r, c) + 1,
    decreases dist_of(d, r, c),
{
    if r == sr && c == sc {
        assert(d[sr][sc] == Some(0u64));
        seq![(sr, sc)]
    } else {
        let k = lemma_bfs_parent(g, skip, sr, sc, d, r, c);
        let w0 = lemma_distance_is_walk_length(g, skip, sr, sc, d, nb_row(r, k), nb_col(c, k));
        lemma_open_walk_push(g, skip, w0, (r, c));
        w0.push((r, c))
    }
}

/// Every open walk from the start ends at a reached square whose distance is at most the
/// number of steps of the walk.
#[verifier::spinoff_prover]
pub proof fn lemma_distance_is_shortest(
    g: Grid,
    skip: u32,
    sr: int,
    sc: int,
    d: Dist,
    w: Seq<(int, int)>,
)
    requires
        grid_wf(g),
        in_grid(g, sr, sc),
        bfs_distances(g, skip, sr, sc, d),
        is_open_walk(g, skip, w),
        w[0] == (sr, sc),
    ensures
        in_grid(g, w.last().0, w.last().1),
        reached(d, w.last().0, w.last().1),
        dist_of(d, w.last().0, w.last().1) <= w.len() - 1,
    decreases w.len(),
{
    if w.len() > 1 {
        let w0 = w.drop_last();
        assert forall|i: int| 1 <= i < w0.len() implies #[trigger] open_square(
            g,
            skip,
            w0[i].0,
            w0[i].1,
        ) by {
            assert(w0[i] == w[i]);
        }
        assert forall|i: int| 0 <= i < w0.len() - 1 implies #[trigger] adjacent(
            w0[i].0,
            w0[i].1,
            w0[i + 1].0,
            w0[i + 1].1,
        ) by {
            assert(w0[i] == w[i] && w0[i + 1] == w[i + 1]);
            assert(adjacent(w[i].0, w[i].1, w[i + 1].0, w[i + 1].1));
        }
        lemma_distance_is_shortest(g, skip, sr, sc, d, w0);
        let a = w0.last();
        let b = w.last();
        assert(w[w.len() - 2] == a);
        let i = w.len() - 2;
        assert(adjacent(w[i].0, w[i].1, w[i + 1].0, w[i + 1].1));
        assert(open_square(g, skip, w[i + 1].0, w[i + 1].1));
        let k = lemma_adjacent_direction(a.0, a.1, b.0, b.1);
        assert(d[a.0][a.1] == d[a.0][a.1]);
        assert(d[nb_row(a.0, k)][nb_col(a.1, k)] == d[b.0][b.1]);
    }
}

} // verus!

verus! {

/// The grid after the reached squares of `d` are marked as measured.
pub open spec fn mark_measured(g: Grid, d: Dist) -> Grid {
    Seq::new(
        g.len(),
        |r: int|
            Seq::new(
                g[r].len(),
                |c: int|
                    if reached(d, r, c) {
                        g[r][c] | MEASURE
                    } else {
                        g[r][c]
                    },
            ),
    )
}

/// The square a distance measurement starts from: the odd row and column at or just past the
/// middle of the grid.
pub fn center_start(maze: &Maze) -> (p: Point)
    requires
        maze.wf(),
        grid_rows(maze@) >= 2,
        grid_cols(maze@) >= 2,
    ensures
        p.row == grid_rows(maze@) / 2 + 1 - (grid_rows(maze@) / 2) % 2,
        p.col == grid_cols(maze@) / 2 + 1 - (grid_cols(maze@) / 2) % 2,
        in_grid(maze@, p.row as int, p.col as int),
{
    let row_mid = maze.row_size() / 2;
    let col_mid = maze.col_size() / 2;
    Point { row: row_mid + 1 - (row_mid % 2), col: col_mid + 1 - (col_mid % 2) }
}

/// The last square of a traversal order is at least as far as every reached square.
proof fn lemma_last_is_farthest(g: Grid, sr: int, sc: int, d: Dist, order: Seq<Point>)
    requires
        grid_wf(g),
        bfs_order(g, sr, sc, d, order),
    ensures
        in_grid(g, order.last().row as int, order.last().col as int),
        reached(d, order.last().row as int, order.last().col as int),
        forall|r: int, c: int|
            #![trigger d[r][c]]
            in_grid(g, r, c) && reached(d, r, c) ==> dist_of(d, r, c) <= dist_of(
                d,
                order.last().row as int,
                order.last().col as int,
            ),
{
    let n = order.len() - 1;
    assert(order[n] == order.last());
    assert forall|r: int, c: int| #![trigger d[r][c]] in_grid(g, r, c) && reached(d, r, c) implies dist_of(
        d,
        r,
        c,
    ) <= dist_of(d, order.last().row as int, order.last().col as int) by {
        let j = choose|j: int| 0 <= j < order.len() && #[trigger] order[j] == pt(r, c);
        assert(order[j].row as int == r && order[j].col as int == c);
        if j < n {
            assert(order[n] == order.last());
        }
    }
}

/// Marks every square of `order` as measured.
#[verifier::spinoff_prover]
fn mark_squares(
    maze: &mut Maze,
    order: &Vec<Point>,
    Ghost(d): Ghost<Dist>,
    Ghost(sr): Ghost<int>,
    Ghost(sc): Ghost<int>,
)
    requires
        old(maze).wf(),
        same_shape_dist(d, old(maze)@),
        bfs_order(old(maze)@, sr, sc, d, order@),
    ensures
        final(maze).wf(),
        final(maze)@ == mark_measured(old(maze)@, d),
{
    let ghost g = maze@;
    let mut i: usize = 0;
    while i < order.len()
        invariant
            maze.wf(),
            grid_wf(g),
            same_shape_dist(d, g),
            bfs_order(g, sr, sc, d, order@),
            0 <= i <= order@.len(),
            maze@.len() == g.len(),
            forall|r: int| 0 <= r < g.len() ==> #[trigger] maze@[r].len() == g[r].len(),
            forall|r: int, c: int|
                #![trigger maze@[r][c]]
                in_grid(g, r, c) ==> maze@[r][c] == if exists|j: int|
                    0 <= j < i && #[trigger] order@[j] == pt(r, c) {
                    g[r][c] | MEASURE
                } else {
                    g[r][c]
                },
        decreases order@.len() - i,
    {
        let p = order[i];
        assert(in_grid(g, p.row as int, p.col as int));
        let v = maze.get(p.row, p.col);
        maze.set(p.row, p.col, v | MEASURE);
        proof {
            assert forall|r: int, c: int| #![trigger maze@[r][c]] in_grid(g, r, c) implies maze@[r][c]
                == if exists|j: int| 0 <= j < i + 1 && #[trigger] order@[j] == pt(r, c) {
                g[r][c] | MEASURE
            } else {
                g[r][c]
            } by {
                let x = g[r][c];
                assert((x | 0x4000u32) | 0x4000u32 == x | 0x4000u32) by (bit_vector);
                if r == p.row && c == p.col {
                    assert(order@[i as int] == pt(r, c));
                } else {
                    if exists|j: int| 0 <= j < i + 1 && #[trigger] order@[j] == pt(r, c) {
                        let j = choose|j: int| 0 <= j < i + 1 && #[trigger] order@[j] == pt(r, c);
                        assert(j != i);
                    }
                }
            }
        }
        i = i + 1;
    }
    proof {
        assert forall|r: int, c: int| #![trigger maze@[r][c]] in_grid(g, r, c) implies maze@[r][c]
            == mark_measured(g, d)[r][c] by {
            assert(g[r].len() == g[0].len());
            if reached(d, r, c) {
                assert(d[r][c] == d[r][c]);
            } else {
                if exists|j: int| 0 <= j < order@.len() && #[trigger] order@[j] == pt(r, c) {
                    let j = choose|j: int| 0 <= j < order@.len() && #[trigger] order@[j] == pt(r, c);
                    assert(order@[j].row as int == r && order@[j].col as int == c);
                }
            }
        }
        assert forall|r: int| 0 <= r < g.len() implies #[trigger] maze@[r] =~= mark_measured(g, d)[r] by {
            assert(g[r].len() == g[0].len());
            assert forall|c: int| 0 <= c < maze@[r].len() implies maze@[r][c] == mark_measured(g, d)[r][c] by {
                assert(in_grid(g, r, c));
            }
        }
        assert(maze@ =~= mark_measured(g, d));
    }
}

/// Measures the path distance of every square reachable from `start` through paths not yet
/// measured, marks those squares as measured, and records the largest distance.
#[verifier::spinoff_prover]
pub fn measure_distances(maze: &mut Maze, start: Point) -> (map: DistanceMap)
    requires
        old(maze).wf(),
        in_grid(old(maze)@, start.row as int, start.col as int),
    ensures
        final(maze).wf(),
        final(maze)@ == mark_measured(old(maze)@, map.dist()),
        same_shape_dist(map.dist(), old(maze)@),
        bfs_distances(old(maze)@, MEASURE, start.row as int, start.col as int, map.dist()),
        forall|r: int, c: int|
            #![trigger map.dist()[r][c]]
            in_grid(old(maze)@, r, c) && reached(map.dist(), r, c) ==> dist_of(map.dist(), r, c)
                <= map.max,
        exists|r: int, c: int|
            #![trigger map.dist()[r][c]]
            in_grid(old(maze)@, r, c) && reached(map.dist(), r, c) && dist_of(map.dist(), r, c)
                == map.max,
{
    let ghost g = maze@;
    let (order, distances) = breadth_first(maze, start, MEASURE, 0);
    let ghost d = dview(distances@);
    mark_squares(maze, &order, Ghost(d), Ghost(start.row as int), Ghost(start.col as int));
    let last = order[order.len() - 1];
    proof {
        lemma_last_is_farthest(g, start.row as int, start.col as int, d, order@);
    }
    assert(dview(distances@)[last.row as int] == distances@[last.row as int]@);
    let max = match distances[last.row as usize][last.col as usize] {
        Some(v) => v,
        None => 0,
    };
    let map = DistanceMap { distances, max };
    assert(map.dist() == d);
    map
}

} // verus!

verus! {

/// A square reached by one traversal is reached by any other from the same start, no further.
#[verifier::spinoff_prover]
proof fn lemma_bfs_dist_le(g: Grid, skip: u32, sr: int, sc: int, d1: Dist, d2: Dist, r: int, c: int)
    requires
        grid_wf(g),
        in_grid(g, sr, sc),
        bfs_distances(g, skip, sr, sc, d1),
        bfs_distances(g, skip, sr, sc, d2),
        in_grid(g, r, c),
        reached(d1, r, c),
    ensures
        reached(d2, r, c),
        dist_of(d2, r, c) <= dist_of(d1, r, c),
{
    let w = lemma_distance_is_walk_length(g, skip, sr, sc, d1, r, c);
    lemma_distance_is_shortest(g, skip, sr, sc, d2, w);
}

/// Breadth-first distances from a start are unique: any two traversals from it through the same
/// open squares (whatever order they try directions in) reach the same squares at the same
/// distances.
#[verifier::spinoff_prover]
pub proof fn lemma_bfs_distances_unique(
    g: Grid,
    skip: u32,
    sr: int,
    sc: int,
    d1: Dist,
    d2: Dist,
)
    requires
        grid_wf(g),
        in_grid(g, sr, sc),
        bfs_distances(g, skip, sr, sc, d1),
        bfs_distances(g, skip, sr, sc, d2),
    ensures
        forall|r: int, c: int| #[trigger] in_grid(g, r, c) ==> d1[r][c] == d2[r][c],
{
    assert forall|r: int, c: int| #[trigger] in_grid(g, r, c) implies d1[r][c] == d2[r][c] by {
        if reached(d1, r, c) {
            lemma_bfs_dist_le(g, skip, sr, sc, d1, d2, r, c);
        }
        if reached(d2, r, c) {
            lemma_bfs_dist_le(g, skip, sr, sc, d2, d1, r, c);
        }
    }
}

} // verus!

verus! {

/// The index of the first square of `order`, from `i` on and before `j`, next to `order[j]`;
/// -1 if there is none.
pub open spec fn first_adjacent(order: Seq<Point>, j: int, i: int) -> int
    decreases j - i,
{
    if i < 0 || i >= j {
        -1
    } else if adjacent(
        order[i].row as int,
        order[i].col as int,
        order[j].row as int,
        order[j].col as int,
    ) {
        i
    } else {
        first_adjacent(order, j, i + 1)
    }
}

/// The cardinal direction of the step from `(ar, ac)` to the adjacent `(br, bc)`.
pub open spec fn direction_of(ar: int, ac: int, br: int, bc: int) -> int {
    if br == ar - 1 {
        0
    } else if bc == ac + 1 {
        1
    } else if br == ar + 1 {
        2
    } else {
        3
    }
}

/// When direction `k` is tried by a traversal that starts each square at direction `bias`.
pub open spec fn direction_rank(bias: int, k: int) -> int {
    if k >= bias {
        k - bias
    } else {
        k - bias + 4
    }
}

/// The rank of the direction in which `order[j]` was discovered from its first neighbour.
pub open spec fn discovery_rank(order: Seq<Point>, bias: int, j: int) -> int {
    let p = first_adjacent(order, j, 0);
    direction_rank(
        bias,
        direction_of(
            order[p].row as int,
            order[p].col as int,
            order[j].row as int,
            order[j].col as int,
        ),
    )
}

/// The order in which a breadth-first traversal discovers squares: every square after the start
/// comes after a neighbour, and squares come ordered by the position of their first neighbour
/// in the order, then by the rank of the direction from that neighbour.
pub open spec fn discovery_order(order: Seq<Point>, bias: int) -> bool {
    &&& forall|j: int| 1 <= j < order.len() ==> 0 <= #[trigger] first_adjacent(order, j, 0) < j
    &&& forall|i: int, j: int|
        1 <= i < j < order.len() ==> #[trigger] first_adjacent(order, i, 0) < #[trigger] first_adjacent(
            order,
            j,
            0,
        ) || (first_adjacent(order, i, 0) == first_adjacent(order, j, 0) && discovery_rank(
            order,
            bias,
            i,
        ) < discovery_rank(order, bias, j))
}

pub proof fn lemma_first_adjacent(order: Seq<Point>, j: int, i: int)
    requires
        0 <= i,
        j < order.len(),
    ensures
        first_adjacent(order, j, i) == -1 || (i <= first_adjacent(order, j, i) < j && adjacent(
            order[first_adjacent(order, j, i)].row as int,
            order[first_adjacent(order, j, i)].col as int,
            order[j].row as int,
            order[j].col as int,
        )),
        forall|x: int|
            i <= x < j && (first_adjacent(order, j, i) == -1 || x < first_adjacent(order, j, i))
                ==> !adjacent(
                order[x].row as int,
                order[x].col as int,
                order[j].row as int,
                order[j].col as int,
            ),
    decreases j - i,
{
    if i < j && !adjacent(
        order[i].row as int,
        order[i].col as int,
        order[j].row as int,
        order[j].col as int,
    ) {
        lemma_first_adjacent(order, j, i + 1);
    }
}

/// Looking for a first neighbour only reads the order before the square.
pub proof fn lemma_first_adjacent_prefix(order: Seq<Point>, q: Point, j: int, i: int)
    requires
        0 <= j < order.len(),
    ensures
        first_adjacent(order.push(q), j, i) == first_adjacent(order, j, i),
    decreases j - i,
{
    if 0 <= i < j {
        assert(order.push(q)[i] == order[i] && order.push(q)[j] == order[j]);
        lemma_first_adjacent_prefix(order, q, j, i + 1);
    }
}

/// Discovering `q`, a neighbour of `order[head]` in the direction of rank `jj` that no earlier
/// square of the order touches, after every square discovered from `order[head]` so far
/// (all of lower rank) keeps the discovery order.
proof fn lemma_discovery_push(order: Seq<Point>, bias: int, head: int, jj: int, k: int, q: Point)
    requires
        discovery_order(order, bias),
        0 <= head < order.len(),
        0 <= bias < 4,
        0 <= jj < 4,
        k == (bias + jj) % 4,
        q.row == nb_row(order[head].row as int, k),
        q.col == nb_col(order[head].col as int, k),
        forall|x: int|
            0 <= x < head ==> !adjacent(
                #[trigger] order[x].row as int,
                order[x].col as int,
                q.row as int,
                q.col as int,
            ),
        forall|j: int|
            1 <= j < order.len() ==> #[trigger] first_adjacent(order, j, 0) < head || (
            first_adjacent(order, j, 0) == head && discovery_rank(order, bias, j) < jj),
    ensures
        discovery_order(order.push(q), bias),
        forall|j: int|
            1 <= j < order.len() + 1 ==> #[trigger] first_adjacent(order.push(q), j, 0) < head || (
            first_adjacent(order.push(q), j, 0) == head && discovery_rank(order.push(q), bias, j)
                < jj + 1),
{
    let o2 = order.push(q);
    let n = order.len() as int;
    assert(o2[n] == q);
    lemma_first_adjacent(o2, n, 0);
    assert(adjacent(
        o2[head].row as int,
        o2[head].col as int,
        o2[n].row as int,
        o2[n].col as int,
    ));
    assert forall|x: int| 0 <= x < head implies !adjacent(
        o2[x].row as int,
        o2[x].col as int,
        o2[n].row as int,
        o2[n].col as int,
    ) by {
        assert(o2[x] == order[x]);
        assert(!adjacent(order[x].row as int, order[x].col as int, q.row as int, q.col as int));
    }
    assert(first_adjacent(o2, n, 0) == head);
    assert(direction_of(
        o2[head].row as int,
        o2[head].col as int,
        o2[n].row as int,
        o2[n].col as int,
    ) == k);
    assert(discovery_rank(o2, bias, n) == jj);
    assert forall|j: int| 0 <= j < n implies #[trigger] first_adjacent(o2, j, 0) == first_adjacent(
        order,
        j,
        0,
    ) && (j >= 1 ==> discovery_rank(o2, bias, j) == discovery_rank(order, bias, j)) by {
        lemma_first_adjacent_prefix(order, q, j, 0);
        if j >= 1 {
            let p = first_adjacent(order, j, 0);
            assert(0 <= p < j);
            assert(o2[p] == order[p] && o2[j] == order[j]);
        }
    }
}

} // verus!

verus! {

/// An open square not yet reached touches no square that has already been processed.
proof fn lemma_bfs_unreached_isolated(
    g: Grid,
    skip: u32,
    sr: int,
    sc: int,
    d: Dist,
    order: Seq<Point>,
    head: int,
    qr: int,
    qc: int,
)
    requires
        bfs_inv(g, skip, sr, sc, d, order, head),
        open_square(g, skip, qr, qc),
        !reached(d, qr, qc),
    ensures
        forall|x: int|
            0 <= x < head ==> !adjacent(#[trigger] order[x].row as int, order[x].col as int, qr, qc),
{
    reveal(bfs_inv);
    assert forall|x: int| 0 <= x < head implies !adjacent(
        #[trigger] order[x].row as int,
        order[x].col as int,
        qr,
        qc,
    ) by {
        if adjacent(order[x].row as int, order[x].col as int, qr, qc) {
            let k = lemma_adjacent_direction(order[x].row as int, order[x].col as int, qr, qc);
            assert(nb_row(order[x].row as int, k) == qr);
        }
    }
}

} // verus!

verus! {

/// The first neighbour of a square depends only on the order before it.
proof fn lemma_first_adjacent_same(o1: Seq<Point>, j1: int, o2: Seq<Point>, j2: int, m: int)
    requires
        0 <= m <= j1 < o1.len(),
        m <= j2 < o2.len(),
        forall|i: int| 0 <= i < m ==> o1[i] == o2[i],
        o1[j1] == o2[j2],
        0 <= first_adjacent(o2, j2, 0) < m,
    ensures
        first_adjacent(o1, j1, 0) == first_adjacent(o2, j2, 0),
{
    let f = first_adjacent(o2, j2, 0);
    lemma_first_adjacent(o2, j2, 0);
    lemma_first_adjacent(o1, j1, 0);
    let r = first_adjacent(o1, j1, 0);
    assert(o1[f] == o2[f]);
    if r != f {
        if 0 <= r && r < f {
            assert(o1[r] == o2[r]);
        }
    }
}

/// The element at `m` of two traversal orders that agree before `m` is the same.
#[verifier::spinoff_prover]
proof fn lemma_order_step(
    g: Grid,
    sr: int,
    sc: int,
    d: Dist,
    bias: int,
    o1: Seq<Point>,
    o2: Seq<Point>,
    m: int,
)
    requires
        bfs_order(g, sr, sc, d, o1),
        bfs_order(g, sr, sc, d, o2),
        discovery_order(o1, bias),
        discovery_order(o2, bias),
        0 <= m < o1.len(),
        m < o2.len(),
        forall|i: int| 0 <= i < m ==> o1[i] == o2[i],
    ensures
        o1[m] == o2[m],
{
    if m > 0 && o1[m] != o2[m] {
        let x = o1[m];
        let y = o2[m];
        // where x stands in o2, and y in o1
        assert(in_grid(g, x.row as int, x.col as int) && reached(d, x.row as int, x.col as int));
        assert(d[x.row as int][x.col as int] == d[x.row as int][x.col as int]);
        let p = choose|i: int| 0 <= i < o2.len() && #[trigger] o2[i] == pt(x.row as int, x.col as int);
        assert(in_grid(g, y.row as int, y.col as int) && reached(d, y.row as int, y.col as int));
        assert(d[y.row as int][y.col as int] == d[y.row as int][y.col as int]);
        let q = choose|i: int| 0 <= i < o1.len() && #[trigger] o1[i] == pt(y.row as int, y.col as int);
        assert(o2[p] == x && o1[q] == y);
        if p < m {
            assert(o1[p] == o2[p]);
            assert(o1[p] != o1[m]);
        }
        if q < m {
            assert(o1[q] == o2[q]);
            assert(o2[q] != o2[m]);
        }
        assert(p > m && q > m);
        // the first neighbours of x and y lie before m in both orders
        assert(0 <= first_adjacent(o1, m, 0) < m);
        assert(0 <= first_adjacent(o2, m, 0) < m);
        lemma_first_adjacent_same(o2, p, o1, m, m);
        lemma_first_adjacent_same(o1, q, o2, m, m);
        let fx = first_adjacent(o1, m, 0);
        let fy = first_adjacent(o2, m, 0);
        assert(o1[fx] == o2[fx] && o1[fy] == o2[fy]);
        assert(discovery_rank(o2, bias, p) == discovery_rank(o1, bias, m));
        assert(discovery_rank(o1, bias, q) == discovery_rank(o2, bias, m));
        // o1 puts x (at m) before y (at q); o2 puts y (at m) before x (at p)
        assert(first_adjacent(o1, m, 0) < first_adjacent(o1, q, 0) || (first_adjacent(o1, m, 0)
            == first_adjacent(o1, q, 0) && discovery_rank(o1, bias, m) < discovery_rank(
            o1,
            bias,
            q,
        )));
        assert(first_adjacent(o2, m, 0) < first_adjacent(o2, p, 0) || (first_adjacent(o2, m, 0)
            == first_adjacent(o2, p, 0) && discovery_rank(o2, bias, m) < discovery_rank(
            o2,
            bias,
            p,
        )));
    }
}

proof fn lemma_order_prefix(
    g: Grid,
    sr: int,
    sc: int,
    d: Dist,
    bias: int,
    o1: Seq<Point>,
    o2: Seq<Point>,
    m: int,
)
    requires
        bfs_order(g, sr, sc, d, o1),
        bfs_order(g, sr, sc, d, o2),
        discovery_order(o1, bias),
        discovery_order(o2, bias),
        0 <= m <= o1.len(),
        m <= o2.len(),
    ensures
        forall|i: int| 0 <= i < m ==> o1[i] == o2[i],
    decreases m,
{
    if m > 0 {
        lemma_order_prefix(g, sr, sc, d, bias, o1, o2, m - 1);
        lemma_order_step(g, sr, sc, d, bias, o1, o2, m - 1);
    }
}

/// A traversal's visiting order is determined by the grid, the start, the distances and the
/// direction it starts each square at: two such orders are the same.
pub proof fn lemma_traversal_order_unique(
    g: Grid,
    sr: int,
    sc: int,
    d: Dist,
    bias: int,
    o1: Seq<Point>,
    o2: Seq<Point>,
)
    requires
        bfs_order(g, sr, sc, d, o1),
        bfs_order(g, sr, sc, d, o2),
        discovery_order(o1, bias),
        discovery_order(o2, bias),
    ensures
        o1 == o2,
{
    let n = if o1.len() < o2.len() {
        o1.len() as int
    } else {
        o2.len() as int
    };
    lemma_order_prefix(g, sr, sc, d, bias, o1, o2, n);
    if o1.len() > n {
        let x = o1[n];
        assert(in_grid(g, x.row as int, x.col as int) && reached(d, x.row as int, x.col as int));
        assert(d[x.row as int][x.col as int] == d[x.row as int][x.col as int]);
        let p = choose|i: int| 0 <= i < o2.len() && #[trigger] o2[i] == pt(x.row as int, x.col as int);
        assert(o2[p] == x);
        assert(o1[p] == o2[p]);
        assert(o1[p] != o1[n]);
    }
    if o2.len() > n {
        let x = o2[n];
        assert(in_grid(g, x.row as int, x.col as int) && reached(d, x.row as int, x.col as int));
        assert(d[x.row as int][x.col as int] == d[x.row as int][x.col as int]);
        let p = choose|i: int| 0 <= i < o1.len() && #[trigger] o1[i] == pt(x.row as int, x.col as int);
        assert(o1[p] == x);
        assert(o1[p] == o2[p]);
        assert(o2[p] != o2[n]);
    }
    assert(o1 =~= o2);
}

} // verus!
