//! Perfect mazes: the carved lattice squares are all connected by paths, and the passages
//! between them are one fewer than the squares, so the passages form a spanning tree.
use vstd::prelude::*;
use crate::carving::{gen_dir_col, gen_dir_row, join, lemma_join_flags, wall_col, wall_row};
use crate::count::count_rect;
use crate::distance::adjacent;
use crate::grid::{grid_cols, grid_rows, grid_wf, in_grid, is_built, is_path, Grid};
use crate::count::lemma_count_none;
use crate::hunt_kill::{
    all_cells_built, carving_sound, covers_directions, hunt_col, is_cell, lemma_hunt_col,
    lemma_join_cells, lemma_walk_choice, no_cell_built, walk_choice, HuntKill, Phase,
};
use crate::carving::NUM_DIRECTIONS;

verus! {

/// A path square that is not a lattice square: a passage between two lattice squares.
pub open spec fn is_passage(g: Grid, r: int, c: int) -> bool {
    in_grid(g, r, c) && is_path(g[r][c]) && !is_cell(g, r, c)
}

pub open spec fn passage_count(g: Grid) -> nat {
    count_rect(|r: int, c: int| is_passage(g, r, c), grid_rows(g), grid_cols(g))
}

pub open spec fn built_cell_count(g: Grid) -> nat {
    count_rect(|r: int, c: int| is_cell(g, r, c) && is_built(g[r][c]), grid_rows(g), grid_cols(g))
}

/// Every passage joins two carved lattice squares: left and right of it on an odd row, above and
/// below it on an even row.
pub open spec fn passages_joined(g: Grid) -> bool {
    forall|r: int, c: int|
        #[trigger] is_passage(g, r, c) ==> (r % 2 == 1 ==> is_built(g[r][c - 1]) && is_built(
            g[r][c + 1],
        )) && (r % 2 == 0 ==> is_built(g[r - 1][c]) && is_built(g[r + 1][c]))
}

/// A walk through path squares, one cardinal step at a time.
pub open spec fn is_path_walk(g: Grid, w: Seq<(int, int)>) -> bool {
    &&& w.len() >= 1
    &&& forall|i: int|
        0 <= i < w.len() ==> in_grid(g, w[i].0, w[i].1) && is_path(g[w[i].0][w[i].1]) && #[trigger] w[i]
            == w[i]
    &&& forall|i: int|
        0 <= i < w.len() - 1 ==> #[trigger] adjacent(w[i].0, w[i].1, w[i + 1].0, w[i + 1].1)
}

/// Some walk through path squares leads from `(ar, ac)` to `(br, bc)`.
pub open spec fn path_connected(g: Grid, ar: int, ac: int, br: int, bc: int) -> bool {
    exists|w: Seq<(int, int)>| #[trigger] is_path_walk(g, w) && w[0] == (ar, ac) && w.last() == (br, bc)
}

/// Every carved lattice square can be reached from `(sr, sc)` through paths.
pub open spec fn rooted(g: Grid, sr: int, sc: int) -> bool {
    forall|r: int, c: int|
        #[trigger] is_cell(g, r, c) && is_built(g[r][c]) ==> path_connected(g, sr, sc, r, c)
}

/// The passages are one fewer than the carved lattice squares, or there are neither.
pub open spec fn tree_count(g: Grid) -> bool {
    passage_count(g) + 1 == built_cell_count(g) || (built_cell_count(g) == 0 && passage_count(g)
        == 0)
}

/// A perfect maze: every lattice square carved, any two joined by a walk through paths, and one
/// passage fewer than lattice squares (so the passages form a spanning tree of the lattice).
pub open spec fn perfect_maze(g: Grid) -> bool {
    &&& all_cells_built(g)
    &&& forall|ar: int, ac: int, br: int, bc: int|
        #[trigger] is_cell(g, ar, ac) && #[trigger] is_cell(g, br, bc) ==> path_connected(
            g,
            ar,
            ac,
            br,
            bc,
        )
    &&& passage_count(g) + 1 == built_cell_count(g)
}

pub open spec fn paths_grow(g: Grid, h: Grid) -> bool {
    forall|r: int, c: int| in_grid(g, r, c) && is_path(g[r][c]) ==> is_path(#[trigger] h[r][c])
}

pub proof fn lemma_walk_grows(g: Grid, h: Grid, w: Seq<(int, int)>)
    requires
        is_path_walk(g, w),
        paths_grow(g, h),
        grid_rows(h) == grid_rows(g),
        grid_cols(h) == grid_cols(g),
    ensures
        is_path_walk(h, w),
{
    assert forall|i: int| 0 <= i < w.len() implies in_grid(h, w[i].0, w[i].1) && is_path(
        h[w[i].0][w[i].1],
    ) && #[trigger] w[i] == w[i] by {
        assert(w[i] == w[i]);
    }
}

/// A walk extended by two more adjacent path squares.
pub proof fn lemma_walk_push2(g: Grid, w: Seq<(int, int)>, p: (int, int), q: (int, int))
    requires
        is_path_walk(g, w),
        in_grid(g, p.0, p.1),
        is_path(g[p.0][p.1]),
        in_grid(g, q.0, q.1),
        is_path(g[q.0][q.1]),
        adjacent(w.last().0, w.last().1, p.0, p.1),
        adjacent(p.0, p.1, q.0, q.1),
    ensures
        is_path_walk(g, w.push(p).push(q)),
        w.push(p).push(q)[0] == w[0],
        w.push(p).push(q).last() == q,
{
    let v = w.push(p).push(q);
    let n = w.len() as int;
    assert(v[n] == p && v[n + 1] == q);
    assert forall|i: int| 0 <= i < v.len() implies in_grid(g, v[i].0, v[i].1) && is_path(
        g[v[i].0][v[i].1],
    ) && #[trigger] v[i] == v[i] by {
        if i < n {
            assert(v[i] == w[i]);
            assert(w[i] == w[i]);
        }
    }
    assert forall|i: int| 0 <= i < v.len() - 1 implies #[trigger] adjacent(
        v[i].0,
        v[i].1,
        v[i + 1].0,
        v[i + 1].1,
    ) by {
        if i < n - 1 {
            assert(v[i] == w[i] && v[i + 1] == w[i + 1]);
            assert(adjacent(w[i].0, w[i].1, w[i + 1].0, w[i + 1].1));
        } else if i == n - 1 {
            assert(v[i] == w.last());
        }
    }
}

pub proof fn lemma_walk_reverse(g: Grid, w: Seq<(int, int)>)
    requires
        is_path_walk(g, w),
    ensures
        is_path_walk(g, w.reverse()),
        w.reverse()[0] == w.last(),
        w.reverse().last() == w[0],
{
    let v = w.reverse();
    let n = w.len() as int;
    assert forall|i: int| 0 <= i < v.len() implies in_grid(g, v[i].0, v[i].1) && is_path(
        g[v[i].0][v[i].1],
    ) && #[trigger] v[i] == v[i] by {
        assert(v[i] == w[n - 1 - i]);
        assert(w[n - 1 - i] == w[n - 1 - i]);
    }
    assert forall|i: int| 0 <= i < v.len() - 1 implies #[trigger] adjacent(
        v[i].0,
        v[i].1,
        v[i + 1].0,
        v[i + 1].1,
    ) by {
        let j = n - 2 - i;
        assert(v[i] == w[j + 1] && v[i + 1] == w[j]);
        assert(adjacent(w[j].0, w[j].1, w[j + 1].0, w[j + 1].1));
    }
}

pub proof fn lemma_walk_concat(g: Grid, w: Seq<(int, int)>, v: Seq<(int, int)>)
    requires
        is_path_walk(g, w),
        is_path_walk(g, v),
        w.last() == v[0],
    ensures
        is_path_walk(g, w + v.drop_first()),
        (w + v.drop_first())[0] == w[0],
        (w + v.drop_first()).last() == v.last(),
{
    let u = w + v.drop_first();
    let n = w.len() as int;
    assert forall|i: int| 0 <= i < u.len() implies in_grid(g, u[i].0, u[i].1) && is_path(
        g[u[i].0][u[i].1],
    ) && #[trigger] u[i] == u[i] by {
        if i < n {
            assert(u[i] == w[i]);
            assert(w[i] == w[i]);
        } else {
            assert(u[i] == v[i - n + 1]);
            assert(v[i - n + 1] == v[i - n + 1]);
        }
    }
    assert forall|i: int| 0 <= i < u.len() - 1 implies #[trigger] adjacent(
        u[i].0,
        u[i].1,
        u[i + 1].0,
        u[i + 1].1,
    ) by {
        if i < n - 1 {
            assert(u[i] == w[i] && u[i + 1] == w[i + 1]);
            assert(adjacent(w[i].0, w[i].1, w[i + 1].0, w[i + 1].1));
        } else if i == n - 1 {
            assert(u[i] == v[0] && u[i + 1] == v[1]);
            assert(adjacent(v[0].0, v[0].1, v[1].0, v[1].1));
        } else {
            let j = i - n + 1;
            assert(u[i] == v[j] && u[i + 1] == v[j + 1]);
            assert(adjacent(v[j].0, v[j].1, v[j + 1].0, v[j + 1].1));
        }
    }
    if v.len() > 1 {
        assert(u.last() == v.last());
    }
}

/// Path connection is symmetric and transitive.
pub proof fn lemma_connected_through(g: Grid, sr: int, sc: int, ar: int, ac: int, br: int, bc: int)
    requires
        path_connected(g, sr, sc, ar, ac),
        path_connected(g, sr, sc, br, bc),
    ensures
        path_connected(g, ar, ac, br, bc),
{
    let w = choose|w: Seq<(int, int)>| #[trigger] is_path_walk(g, w) && w[0] == (sr, sc) && w.last() == (ar, ac);
    let v = choose|v: Seq<(int, int)>| #[trigger] is_path_walk(g, v) && v[0] == (sr, sc) && v.last() == (br, bc);
    lemma_walk_reverse(g, w);
    lemma_walk_concat(g, w.reverse(), v);
    assert(is_path_walk(g, w.reverse() + v.drop_first()));
}

} // verus!

verus! {

/// Joining a lattice square to its neighbour `k`, exactly one of them carved before (or neither,
/// when nothing is carved yet and the first is the root), keeps every passage between carved
/// squares, keeps every carved square reachable from the root, and adds one passage for each
/// newly carved square beyond the first.
#[verifier::spinoff_prover]
pub proof fn lemma_join_keeps_tree(g: Grid, ar: int, ac: int, k: int, sr: int, sc: int)
    requires
        grid_wf(g),
        carving_sound(g),
        passages_joined(g),
        rooted(g, sr, sc),
        tree_count(g),
        is_cell(g, ar, ac),
        0 <= k < 4,
        is_cell(g, ar + gen_dir_row(k), ac + gen_dir_col(k)),
        (is_built(g[ar][ac]) && !is_built(g[ar + gen_dir_row(k)][ac + gen_dir_col(k)])) || (
        !is_built(g[ar][ac]) && is_built(g[ar + gen_dir_row(k)][ac + gen_dir_col(k)])) || (
        no_cell_built(g) && ar == sr && ac == sc),
    ensures
        ({
            let h = join(g, ar, ac, ar + gen_dir_row(k), ac + gen_dir_col(k));
            &&& passages_joined(h)
            &&& rooted(h, sr, sc)
            &&& tree_count(h)
        }),
{
    let br = ar + gen_dir_row(k);
    let bc = ac + gen_dir_col(k);
    let wr = wall_row(ar, ac, br, bc);
    let wc = wall_col(ar, ac, br, bc);
    let h = join(g, ar, ac, br, bc);
    let rows = grid_rows(g);
    let cols = grid_cols(g);
    lemma_join_flags(g, ar, ac, br, bc);
    assert(in_grid(g, wr, wc) && !is_cell(g, wr, wc));
    assert(adjacent(ar, ac, wr, wc) && adjacent(wr, wc, br, bc));
    // the wall square was no passage: a passage's two ends are carved
    assert(!is_path(g[wr][wc])) by {
        if is_path(g[wr][wc]) {
            assert(is_passage(g, wr, wc));
            if k == 0 {
                assert(wr % 2 == 0);
            } else if k == 2 {
                assert(wr % 2 == 0);
            } else {
                assert(wr % 2 == 1);
            }
        }
    }
    assert forall|r: int, c: int| in_grid(g, r, c) && is_path(g[r][c]) implies is_path(
        #[trigger] h[r][c],
    ) by {}
    assert(paths_grow(g, h));
    // passages
    let fp = |r: int, c: int| is_passage(g, r, c);
    let hp = |r: int, c: int| is_passage(h, r, c);
    assert forall|r: int, c: int| 0 <= r < rows && 0 <= c < cols implies #[trigger] hp(r, c) == (fp(
        r,
        c,
    ) || (r == wr && c == wc)) by {
        assert(in_grid(g, r, c));
    }
    crate::count::lemma_count_insert(fp, hp, rows, cols, wr, wc);
    assert(passage_count(h) == passage_count(g) + 1);
    // carved lattice squares
    let fc = |r: int, c: int| is_cell(g, r, c) && is_built(g[r][c]);
    let hc = |r: int, c: int| is_cell(h, r, c) && is_built(h[r][c]);
    if is_built(g[ar][ac]) && !is_built(g[br][bc]) {
        assert forall|r: int, c: int| 0 <= r < rows && 0 <= c < cols implies #[trigger] hc(r, c) == (
        fc(r, c) || (r == br && c == bc)) by {
            assert(in_grid(g, r, c));
        }
        crate::count::lemma_count_insert(fc, hc, rows, cols, br, bc);
        let none = |r: int, c: int| false;
        crate::count::lemma_count_none(none, rows, cols);
        crate::count::lemma_count_strict(none, fc, rows, cols, ar, ac);
    } else if !is_built(g[ar][ac]) && is_built(g[br][bc]) {
        assert forall|r: int, c: int| 0 <= r < rows && 0 <= c < cols implies #[trigger] hc(r, c) == (
        fc(r, c) || (r == ar && c == ac)) by {
            assert(in_grid(g, r, c));
        }
        crate::count::lemma_count_insert(fc, hc, rows, cols, ar, ac);
        let none = |r: int, c: int| false;
        crate::count::lemma_count_none(none, rows, cols);
        crate::count::lemma_count_strict(none, fc, rows, cols, br, bc);
    } else {
        assert forall|r: int, c: int| 0 <= r < rows && 0 <= c < cols implies !#[trigger] fc(r, c) by {
            if is_cell(g, r, c) {
                assert(!is_built(g[r][c]));
            }
        }
        crate::count::lemma_count_none(fc, rows, cols);
        let f1 = |r: int, c: int| fc(r, c) || (r == ar && c == ac);
        assert forall|r: int, c: int| 0 <= r < rows && 0 <= c < cols implies #[trigger] f1(r, c) == (
        fc(r, c) || (r == ar && c == ac)) by {}
        crate::count::lemma_count_insert(fc, f1, rows, cols, ar, ac);
        assert forall|r: int, c: int| 0 <= r < rows && 0 <= c < cols implies #[trigger] hc(r, c) == (
        f1(r, c) || (r == br && c == bc)) by {
            assert(in_grid(g, r, c));
        }
        crate::count::lemma_count_insert(f1, hc, rows, cols, br, bc);
    }
    assert(built_cell_count(h) == count_rect(hc, rows, cols));
    // passages join carved squares
    assert forall|r: int, c: int| #[trigger] is_passage(h, r, c) implies (r % 2 == 1 ==> is_built(
        h[r][c - 1],
    ) && is_built(h[r][c + 1])) && (r % 2 == 0 ==> is_built(h[r - 1][c]) && is_built(
        h[r + 1][c],
    )) by {
        assert(in_grid(g, r, c));
        if r == wr && c == wc {
            if k == 0 || k == 2 {
                assert(r % 2 == 0);
            } else {
                assert(r % 2 == 1);
            }
        } else {
            assert(is_passage(g, r, c));
            if r % 2 == 1 {
                assert(in_grid(g, r, c - 1) && in_grid(g, r, c + 1));
            } else {
                assert(in_grid(g, r - 1, c) && in_grid(g, r + 1, c));
            }
        }
    }
    // every carved square stays reachable from the root
    assert forall|r: int, c: int| #[trigger] is_cell(h, r, c) && is_built(h[r][c]) implies path_connected(
        h,
        sr,
        sc,
        r,
        c,
    ) by {
        assert(is_cell(g, r, c));
        if is_built(g[r][c]) {
            let w = choose|w: Seq<(int, int)>| #[trigger] is_path_walk(g, w) && w[0] == (sr, sc) && w.last() == (r, c);
            lemma_walk_grows(g, h, w);
        } else if is_built(g[ar][ac]) && !is_built(g[br][bc]) {
            assert(r == br && c == bc);
            let w = choose|w: Seq<(int, int)>| #[trigger] is_path_walk(g, w) && w[0] == (sr, sc) && w.last() == (ar, ac);
            lemma_walk_grows(g, h, w);
            lemma_walk_push2(h, w, (wr, wc), (br, bc));
            assert(is_path_walk(h, w.push((wr, wc)).push((br, bc))));
        } else if !is_built(g[ar][ac]) && is_built(g[br][bc]) {
            assert(r == ar && c == ac);
            let w = choose|w: Seq<(int, int)>| #[trigger] is_path_walk(g, w) && w[0] == (sr, sc) && w.last() == (br, bc);
            lemma_walk_grows(g, h, w);
            lemma_walk_push2(h, w, (wr, wc), (ar, ac));
            assert(is_path_walk(h, w.push((wr, wc)).push((ar, ac))));
        } else {
            let w0 = seq![(sr, sc)];
            assert(w0[0] == (sr, sc));
            assert(is_path_walk(h, w0));
            if r == sr && c == sc {
                assert(w0.last() == (r, c));
            } else {
                assert(r == br && c == bc);
                lemma_walk_push2(h, w0, (wr, wc), (br, bc));
                assert(is_path_walk(h, w0.push((wr, wc)).push((br, bc))));
            }
        }
    }
}

/// A finished maze with every lattice square carved, reachable from one root, and one passage
/// fewer than squares is perfect.
pub proof fn lemma_perfect(g: Grid, sr: int, sc: int)
    requires
        all_cells_built(g),
        rooted(g, sr, sc),
        tree_count(g),
        exists|r: int, c: int| #[trigger] is_cell(g, r, c),
    ensures
        perfect_maze(g),
{
    let (r0, c0) = choose|r: int, c: int| #[trigger] is_cell(g, r, c);
    assert(is_built(g[r0][c0]));
    let fc = |r: int, c: int| is_cell(g, r, c) && is_built(g[r][c]);
    let none = |r: int, c: int| false;
    crate::count::lemma_count_none(none, grid_rows(g), grid_cols(g));
    crate::count::lemma_count_strict(none, fc, grid_rows(g), grid_cols(g), r0, c0);
    assert forall|ar: int, ac: int, br: int, bc: int|
        #[trigger] is_cell(g, ar, ac) && #[trigger] is_cell(g, br, bc) implies path_connected(
        g,
        ar,
        ac,
        br,
        bc,
    ) by {
        lemma_connected_through(g, sr, sc, ar, ac, br, bc);
    }
}

} // verus!

verus! {

/// Every step of the builder keeps every passage between carved squares, every carved square
/// reachable from the root, and one passage fewer than carved squares; while nothing is carved
/// the builder stands on the root.
#[verifier::spinoff_prover]
pub proof fn lemma_step_keeps_tree(b: HuntKill, g: Grid, order: Seq<usize>, sr: int, sc: int)
    requires
        b.can_step(g, order),
        b.consistent(g),
        carving_sound(g),
        covers_directions(order),
        passages_joined(g),
        rooted(g, sr, sc),
        tree_count(g),
        no_cell_built(g) ==> b.cur.row == sr && b.cur.col == sc,
    ensures
        ({
            let (b2, g2, s) = b.step_spec(g, order);
            &&& passages_joined(g2)
            &&& rooted(g2, sr, sc)
            &&& tree_count(g2)
            &&& no_cell_built(g2) ==> b2.cur.row == sr && b2.cur.col == sc
        }),
{
    let cr = b.cur.row as int;
    let cc = b.cur.col as int;
    match b.phase {
        Phase::Walking => {
            lemma_walk_choice(g, cr, cc, order, 0);
            match walk_choice(g, cr, cc, order, 0) {
                Some(k) => {
                    let i = choose|i: int| 0 <= i < order.len() && order[i] == k;
                    assert(order[i] < NUM_DIRECTIONS);
                    let nr = cr + gen_dir_row(k);
                    let nc = cc + gen_dir_col(k);
                    assert(is_cell(g, nr, nc));
                    lemma_join_keeps_tree(g, cr, cc, k, sr, sc);
                    lemma_join_cells(g, cr, cc, k);
                    let h = join(g, cr, cc, nr, nc);
                    assert(is_cell(h, nr, nc));
                },
                None => {},
            }
        },
        Phase::Hunting { row, highest_set } => {
            if row < grid_rows(g) - 1 {
                lemma_hunt_col(g, row as int, 1);
                match hunt_col(g, row as int, 1) {
                    Some((c, k)) => {
                        assert(is_cell(g, row as int, c));
                        lemma_join_keeps_tree(g, row as int, c, k, sr, sc);
                        lemma_join_cells(g, row as int, c, k);
                        let h = join(g, row as int, c, row + gen_dir_row(k), c + gen_dir_col(k));
                        assert(is_cell(h, row as int, c));
                    },
                    None => {},
                }
            }
        },
        Phase::Finished => {},
    }
}

} // verus!

verus! {

/// A grid with no path at all has no passage, nothing carved to reach, and no count to keep.
pub proof fn lemma_walled_tree(g: Grid)
    requires
        forall|r: int, c: int| in_grid(g, r, c) ==> !is_path(#[trigger] g[r][c]),
        forall|r: int, c: int| #[trigger] is_cell(g, r, c) ==> !is_built(g[r][c]),
    ensures
        passages_joined(g),
        forall|sr: int, sc: int| #[trigger] rooted(g, sr, sc),
        tree_count(g),
{
    let fp = |r: int, c: int| is_passage(g, r, c);
    let fc = |r: int, c: int| is_cell(g, r, c) && is_built(g[r][c]);
    assert forall|r: int, c: int| 0 <= r < grid_rows(g) && 0 <= c < grid_cols(g) implies !#[trigger] fp(r, c) by {
        assert(in_grid(g, r, c));
    }
    assert forall|r: int, c: int| 0 <= r < grid_rows(g) && 0 <= c < grid_cols(g) implies !#[trigger] fc(r, c) by {
    }
    lemma_count_none(fp, grid_rows(g), grid_cols(g));
    lemma_count_none(fc, grid_rows(g), grid_cols(g));
}

} // verus!
