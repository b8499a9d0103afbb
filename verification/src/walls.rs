//! What walls mean: a square's wall line has one bit per cardinal direction, set when the
//! square is joined by a wall to its neighbour that way. These laws tie walling, carving and
//! joining to that meaning.
use vstd::prelude::*;
use crate::carving::{
    card_dir_col, card_dir_row, carve, carved_value, gen_dir_col, gen_dir_row, join, wall_col,
    wall_row, within_perimeter,
};
use crate::grid::{
    grid_cols, grid_rows, grid_wf, in_grid, is_built, is_path, wall_line, walled_grid, Grid,
    BUILDER_BIT, EAST_WALL, NORTH_WALL, PATH_BIT, SOUTH_WALL, WEST_WALL,
};
use crate::distance::{adjacent, opposite};

verus! {

/// The wall bit towards cardinal direction `k` (north, east, south, west).
pub open spec fn wall_bit(k: int) -> u32 {
    if k == 0 {
        NORTH_WALL
    } else if k == 1 {
        EAST_WALL
    } else if k == 2 {
        SOUTH_WALL
    } else {
        WEST_WALL
    }
}

/// Every in-grid neighbour of `(pr, pc)` has its wall bit towards `(pr, pc)` cleared.
pub open spec fn opened_towards(h: Grid, pr: int, pc: int) -> bool {
    forall|k: int|
        0 <= k < 4 && in_grid(h, pr + card_dir_row(k), pc + card_dir_col(k)) ==> #[trigger] h[pr
            + card_dir_row(k)][pc + card_dir_col(k)] & wall_bit(opposite(k)) == 0
}

/// `(r, c)` is `(pr, pc)` or one of its four neighbours.
pub open spec fn near(r: int, c: int, pr: int, pc: int) -> bool {
    (r == pr && c == pc) || adjacent(r, c, pr, pc)
}

/// A freshly walled square has exactly the wall bits towards its neighbours inside the grid,
/// and nothing else: for every number of rows and columns.
pub proof fn lemma_walled_lines(rows: int, cols: int, r: int, c: int)
    requires
        1 <= rows <= i32::MAX,
        1 <= cols <= i32::MAX,
        0 <= r < rows,
        0 <= c < cols,
    ensures
        walled_grid(rows, cols)[r][c] <= 15,
        forall|k: int|
            0 <= k < 4 ==> (#[trigger] (walled_grid(rows, cols)[r][c] & wall_bit(k)) != 0) == (0
                <= r + card_dir_row(k) < rows && 0 <= c + card_dir_col(k) < cols),
{
    let a: u32 = if r > 0 { 1u32 } else { 0u32 };
    let b: u32 = if r + 1 < rows { 4u32 } else { 0u32 };
    let d: u32 = if c > 0 { 8u32 } else { 0u32 };
    let e: u32 = if c + 1 < cols { 2u32 } else { 0u32 };
    let v = walled_grid(rows, cols)[r][c];
    assert(v == wall_line(rows, cols, r, c));
    assert(v == a | b | d | e);
    assert((a | b | d | e) <= 15u32 && ((a | b | d | e) & 1u32 != 0) == (a != 0) && ((a | b | d
        | e) & 2u32 != 0) == (e != 0) && ((a | b | d | e) & 4u32 != 0) == (b != 0) && ((a | b | d
        | e) & 8u32 != 0) == (d != 0)) by (bit_vector)
        requires
            a == 0u32 || a == 1u32,
            b == 0u32 || b == 4u32,
            d == 0u32 || d == 8u32,
            e == 0u32 || e == 2u32,
    ;
}

proof fn lemma_mask_bits(x: u32, m: u32, bit: u32)
    requires
        bit == 1u32 || bit == 2u32 || bit == 4u32 || bit == 8u32,
    ensures
        (x | PATH_BIT | BUILDER_BIT) & bit == x & bit,
        x & bit == 0 ==> (x & !m) & bit == 0,
        m == bit ==> (x & !m) & bit == 0,
        m != bit && (m == 1u32 || m == 2u32 || m == 4u32 || m == 8u32) ==> (x & !m) & bit == x
            & bit,
{
    assert((x | 0x2000u32 | 0x1000u32) & bit == x & bit) by (bit_vector)
        requires
            bit == 1u32 || bit == 2u32 || bit == 4u32 || bit == 8u32,
    ;
    assert(x & bit == 0 ==> (x & !m) & bit == 0) by (bit_vector);
    assert(m == bit ==> (x & !m) & bit == 0) by (bit_vector);
    assert(m != bit && (m == 1u32 || m == 2u32 || m == 4u32 || m == 8u32) ==> (x & !m) & bit
        == x & bit) by (bit_vector)
        requires
            bit == 1u32 || bit == 2u32 || bit == 4u32 || bit == 8u32,
    ;
}

/// Carving `p` makes it a built path, clears in each neighbour exactly the wall bit that points
/// at `p`, and leaves every other square as it was.
pub proof fn lemma_carve_law(g: Grid, pr: int, pc: int)
    requires
        grid_wf(g),
        in_grid(g, pr, pc),
    ensures
        carve(g, pr, pc)[pr][pc] == g[pr][pc] | PATH_BIT | BUILDER_BIT,
        forall|k: int|
            0 <= k < 4 && in_grid(g, pr + card_dir_row(k), pc + card_dir_col(k)) ==> #[trigger] carve(
                g,
                pr,
                pc,
            )[pr + card_dir_row(k)][pc + card_dir_col(k)] == g[pr + card_dir_row(k)][pc
                + card_dir_col(k)] & !wall_bit(opposite(k)),
        forall|r: int, c: int|
            in_grid(g, r, c) && !near(r, c, pr, pc) ==> #[trigger] carve(g, pr, pc)[r][c] == g[r][c],
        opened_towards(carve(g, pr, pc), pr, pc),
{
    let h = carve(g, pr, pc);
    assert(g[pr].len() == g[0].len());
    assert forall|k: int|
        0 <= k < 4 && in_grid(g, pr + card_dir_row(k), pc + card_dir_col(k)) implies #[trigger] h[pr
        + card_dir_row(k)][pc + card_dir_col(k)] == g[pr + card_dir_row(k)][pc + card_dir_col(k)]
        & !wall_bit(opposite(k)) by {
        assert(g[pr + card_dir_row(k)].len() == g[0].len());
    }
    assert forall|r: int, c: int| in_grid(g, r, c) && !near(r, c, pr, pc) implies #[trigger] h[r][c]
        == g[r][c] by {
        assert(g[r].len() == g[0].len());
    }
    assert forall|k: int|
        0 <= k < 4 && in_grid(h, pr + card_dir_row(k), pc + card_dir_col(k)) implies #[trigger] h[pr
        + card_dir_row(k)][pc + card_dir_col(k)] & wall_bit(opposite(k)) == 0 by {
        assert(g[pr + card_dir_row(k)].len() == g[0].len());
        lemma_mask_bits(g[pr + card_dir_row(k)][pc + card_dir_col(k)], wall_bit(opposite(k)), wall_bit(opposite(k)));
    }
}

/// Carving never sets a wall bit: a bit already clear in a square stays clear.
proof fn lemma_carve_keeps_clear(g: Grid, pr: int, pc: int, qr: int, qc: int, bit: u32)
    requires
        grid_wf(g),
        in_grid(g, qr, qc),
        bit == 1u32 || bit == 2u32 || bit == 4u32 || bit == 8u32,
        g[qr][qc] & bit == 0,
    ensures
        carve(g, pr, pc)[qr][qc] & bit == 0,
{
    assert(g[qr].len() == g[0].len());
    let v = g[qr][qc];
    lemma_mask_bits(v, SOUTH_WALL, bit);
    lemma_mask_bits(v, NORTH_WALL, bit);
    lemma_mask_bits(v, EAST_WALL, bit);
    lemma_mask_bits(v, WEST_WALL, bit);
    assert(carve(g, pr, pc)[qr][qc] == carved_value(g, pr, pc, qr, qc));
}

/// Carving keeps a square opened towards `(pr, pc)` opened.
proof fn lemma_carve_keeps_opened(g: Grid, sr: int, sc: int, pr: int, pc: int)
    requires
        grid_wf(g),
        opened_towards(g, pr, pc),
    ensures
        opened_towards(carve(g, sr, sc), pr, pc),
{
    let h = carve(g, sr, sc);
    assert forall|k: int|
        0 <= k < 4 && in_grid(h, pr + card_dir_row(k), pc + card_dir_col(k)) implies #[trigger] h[pr
        + card_dir_row(k)][pc + card_dir_col(k)] & wall_bit(opposite(k)) == 0 by {
        assert(in_grid(g, pr + card_dir_row(k), pc + card_dir_col(k)));
        lemma_carve_keeps_clear(
            g,
            sr,
            sc,
            pr + card_dir_row(k),
            pc + card_dir_col(k),
            wall_bit(opposite(k)),
        );
    }
}

proof fn lemma_carve_shape(g: Grid, pr: int, pc: int)
    requires
        grid_wf(g),
    ensures
        grid_wf(carve(g, pr, pc)),
        grid_rows(carve(g, pr, pc)) == grid_rows(g),
        grid_cols(carve(g, pr, pc)) == grid_cols(g),
        forall|r: int, c: int| #[trigger] in_grid(g, r, c) ==> is_built(carve(g, pr, pc)[r][c])
            == (is_built(g[r][c]) || (r == pr && c == pc)) && is_path(carve(g, pr, pc)[r][c]) == (
            is_path(g[r][c]) || (r == pr && c == pc)),
{
    crate::carving::lemma_carve_flags(g, pr, pc);
}

/// Joining lattice neighbours `a` and `b` (the step `k` of a builder) carves `a`, the square
/// between them and `b` into built paths, and opens every in-grid neighbour of each of the
/// three towards it: no wall line of the maze still points into the new passage.
pub proof fn lemma_join_opens_passage(g: Grid, ar: int, ac: int, k: int)
    requires
        grid_wf(g),
        0 <= k < 4,
        within_perimeter(g, ar, ac),
        within_perimeter(g, ar + gen_dir_row(k), ac + gen_dir_col(k)),
    ensures
        ({
            let br = ar + gen_dir_row(k);
            let bc = ac + gen_dir_col(k);
            let wr = ar + card_dir_row(k);
            let wc = ac + card_dir_col(k);
            let h = join(g, ar, ac, br, bc);
            &&& is_built(h[ar][ac]) && is_path(h[ar][ac])
            &&& is_built(h[wr][wc]) && is_path(h[wr][wc])
            &&& is_built(h[br][bc]) && is_path(h[br][bc])
            &&& opened_towards(h, ar, ac)
            &&& opened_towards(h, wr, wc)
            &&& opened_towards(h, br, bc)
            &&& forall|r: int, c: int|
                in_grid(g, r, c) && !near(r, c, ar, ac) && !near(r, c, wr, wc) && !near(
                    r,
                    c,
                    br,
                    bc,
                ) ==> #[trigger] h[r][c] == g[r][c]
            &&& forall|r: int, c: int|
                #![trigger h[r][c]]
                in_grid(g, r, c) ==> h[r][c] & !g[r][c] & 15u32 == 0
        }),
{
    let br = ar + gen_dir_row(k);
    let bc = ac + gen_dir_col(k);
    let wr = ar + card_dir_row(k);
    let wc = ac + card_dir_col(k);
    assert(wall_row(ar, ac, br, bc) == wr && wall_col(ar, ac, br, bc) == wc);
    let g1 = carve(g, ar, ac);
    lemma_carve_law(g, ar, ac);
    lemma_carve_shape(g, ar, ac);
    let g2 = carve(g1, wr, wc);
    lemma_carve_law(g1, wr, wc);
    lemma_carve_shape(g1, wr, wc);
    lemma_carve_keeps_opened(g1, wr, wc, ar, ac);
    let h = carve(g2, br, bc);
    lemma_carve_law(g2, br, bc);
    lemma_carve_shape(g2, br, bc);
    lemma_carve_keeps_opened(g2, br, bc, ar, ac);
    lemma_carve_keeps_opened(g2, br, bc, wr, wc);
    assert(h == join(g, ar, ac, br, bc));
    assert(in_grid(g, ar, ac) && in_grid(g, wr, wc) && in_grid(g, br, bc));
    assert(in_grid(g1, ar, ac) && in_grid(g1, wr, wc) && in_grid(g1, br, bc));
    assert(in_grid(g2, ar, ac) && in_grid(g2, wr, wc) && in_grid(g2, br, bc));
    assert(is_built(g1[ar][ac]) && is_path(g1[ar][ac]));
    assert(is_built(g2[ar][ac]) && is_path(g2[ar][ac]));
    assert(is_built(g2[wr][wc]) && is_path(g2[wr][wc]));
    assert(is_built(h[ar][ac]) && is_path(h[ar][ac]));
    assert(is_built(h[wr][wc]) && is_path(h[wr][wc]));
    assert(is_built(h[br][bc]) && is_path(h[br][bc]));
    assert(opened_towards(h, br, bc));
    assert(opened_towards(h, wr, wc));
    assert(opened_towards(h, ar, ac));
    assert forall|r: int, c: int|
        #![trigger h[r][c]]
        in_grid(g, r, c) implies h[r][c] & !g[r][c] & 15u32 == 0 by {
        lemma_carve_adds_no_wall(g, ar, ac, r, c);
        lemma_carve_adds_no_wall(g1, wr, wc, r, c);
        lemma_carve_adds_no_wall(g2, br, bc, r, c);
        let x = g[r][c];
        let y = g1[r][c];
        let z = g2[r][c];
        let w = h[r][c];
        assert(w & !x & 15u32 == 0) by (bit_vector)
            requires
                y & !x & 15u32 == 0,
                z & !y & 15u32 == 0,
                w & !z & 15u32 == 0,
        ;
    }
}

/// Carving never adds a wall bit to any square.
proof fn lemma_carve_adds_no_wall(g: Grid, pr: int, pc: int, r: int, c: int)
    requires
        grid_wf(g),
        in_grid(g, r, c),
    ensures
        carve(g, pr, pc)[r][c] & !g[r][c] & 15u32 == 0,
{
    assert(g[r].len() == g[0].len());
    let v = g[r][c];
    assert(carve(g, pr, pc)[r][c] == carved_value(g, pr, pc, r, c));
    assert((v | 0x2000u32 | 0x1000u32) & !v & 15u32 == 0) by (bit_vector);
    assert((v & !4u32) & !v & 15u32 == 0) by (bit_vector);
    assert((v & !1u32) & !v & 15u32 == 0) by (bit_vector);
    assert((v & !2u32) & !v & 15u32 == 0) by (bit_vector);
    assert((v & !8u32) & !v & 15u32 == 0) by (bit_vector);
    assert(v & !v & 15u32 == 0) by (bit_vector);
}

} // verus!
