//! Counting filled cells: the total of a grid's cells, kept by every move of a
//! tile, and the exact cover that a flat complete solution makes.
use crate::piece::{
    bottom_row, flat, flipped, in_grid, left_col, lemma_bounding_box, lemma_grid_of, lemma_moved,
    moved, overlaid, right_col, rotated, shoved, top_row, transposed, Piece,
};
use crate::board::{
    blocked, first_labelled, label_of, lemma_with_cell, starting_grid, tile, tile_covers, with_cell,
};
use crate::solver::{
    completions, layered, lemma_placements_flat, lemma_search_sound, opened_board, tile_placements,
    valid_extension,
};
use crate::placement::{
    col_offsets, lemma_concat_index, lemma_dedup, orientation_walk, orientations, placements, row_offsets,
    shifts,
};
use vstd::arithmetic::div_mod::{lemma_fundamental_div_mod, lemma_mod_bound};
use vstd::prelude::*;

verus! {

/// The sum of `f(i)` for `lo <= i < hi`.
pub open spec fn sum(f: spec_fn(int) -> int, lo: int, hi: int) -> int
    decreases hi - lo,
{
    if hi <= lo {
        0
    } else {
        sum(f, lo, hi - 1) + f(hi - 1)
    }
}

proof fn lemma_sum_ext(f: spec_fn(int) -> int, g: spec_fn(int) -> int, lo: int, hi: int)
    requires
        forall|i: int| lo <= i < hi ==> #[trigger] f(i) == g(i),
    ensures
        sum(f, lo, hi) == sum(g, lo, hi),
    decreases hi - lo,
{
    if hi > lo {
        lemma_sum_ext(f, g, lo, hi - 1);
    }
}

proof fn lemma_sum_add(
    f: spec_fn(int) -> int,
    g: spec_fn(int) -> int,
    h: spec_fn(int) -> int,
    lo: int,
    hi: int,
)
    requires
        forall|i: int| lo <= i < hi ==> #[trigger] h(i) == f(i) + g(i),
    ensures
        sum(h, lo, hi) == sum(f, lo, hi) + sum(g, lo, hi),
    decreases hi - lo,
{
    if hi > lo {
        lemma_sum_add(f, g, h, lo, hi - 1);
    }
}

proof fn lemma_sum_zero(f: spec_fn(int) -> int, lo: int, hi: int)
    requires
        forall|i: int| lo <= i < hi ==> #[trigger] f(i) == 0,
    ensures
        sum(f, lo, hi) == 0,
    decreases hi - lo,
{
    if hi > lo {
        lemma_sum_zero(f, lo, hi - 1);
    }
}

proof fn lemma_sum_split(f: spec_fn(int) -> int, lo: int, mid: int, hi: int)
    requires
        lo <= mid <= hi,
    ensures
        sum(f, lo, hi) == sum(f, lo, mid) + sum(f, mid, hi),
    decreases hi - mid,
{
    if hi > mid {
        lemma_sum_split(f, lo, mid, hi - 1);
    }
}

/// Shifting the index of a sum shifts its bounds.
proof fn lemma_sum_shift(f: spec_fn(int) -> int, g: spec_fn(int) -> int, d: int, lo: int, hi: int)
    requires
        forall|i: int| lo <= i < hi ==> #[trigger] g(i) == f(i + d),
    ensures
        sum(g, lo, hi) == sum(f, lo + d, hi + d),
    decreases hi - lo,
{
    if hi > lo {
        lemma_sum_shift(f, g, d, lo, hi - 1);
    }
}

/// Reading a sum backwards gives the same total.
proof fn lemma_sum_reverse(f: spec_fn(int) -> int, g: spec_fn(int) -> int, a: int, lo: int, hi: int)
    requires
        forall|i: int| lo <= i < hi ==> #[trigger] g(i) == f(a - i),
    ensures
        sum(g, lo, hi) == sum(f, a - hi + 1, a - lo + 1),
    decreases hi - lo,
{
    if hi > lo {
        lemma_sum_reverse(f, g, a, lo, hi - 1);
        lemma_sum_split(f, a - hi + 1, a - hi + 2, a - lo + 1);
        lemma_sum_split(f, a - hi + 1, a - hi + 1, a - hi + 2);
    }
}

/// Two sums over windows agree when `f` is zero wherever only one window reaches.
proof fn lemma_sum_window(f: spec_fn(int) -> int, lo1: int, hi1: int, lo2: int, hi2: int)
    requires
        lo1 <= hi1,
        lo2 <= hi2,
        forall|i: int| lo1 <= i < hi1 && !(lo2 <= i < hi2) ==> #[trigger] f(i) == 0,
        forall|i: int| lo2 <= i < hi2 && !(lo1 <= i < hi1) ==> #[trigger] f(i) == 0,
    ensures
        sum(f, lo1, hi1) == sum(f, lo2, hi2),
{
    let lo = if lo1 > lo2 {
        lo1
    } else {
        lo2
    };
    let hi = if hi1 < hi2 {
        hi1
    } else {
        hi2
    };
    if lo >= hi {
        lemma_sum_zero(f, lo1, hi1);
        lemma_sum_zero(f, lo2, hi2);
    } else {
        lemma_sum_split(f, lo1, lo, hi1);
        lemma_sum_split(f, lo, hi, hi1);
        lemma_sum_split(f, lo2, lo, hi2);
        lemma_sum_split(f, lo, hi, hi2);
        lemma_sum_zero(f, lo1, lo);
        lemma_sum_zero(f, hi, hi1);
        lemma_sum_zero(f, lo2, lo);
        lemma_sum_zero(f, hi, hi2);
    }
}

/// A sum of terms between 0 and `cap` is at most `cap` times the number of
/// terms, and reaches it only when every term is `cap`.
proof fn lemma_sum_capped(f: spec_fn(int) -> int, cap: int, lo: int, hi: int)
    requires
        lo <= hi,
        forall|i: int| lo <= i < hi ==> 0 <= #[trigger] f(i) <= cap,
    ensures
        0 <= sum(f, lo, hi) <= cap * (hi - lo),
        sum(f, lo, hi) == cap * (hi - lo) ==> forall|i: int| lo <= i < hi ==> #[trigger] f(i) == cap,
    decreases hi - lo,
{
    if hi > lo {
        lemma_sum_capped(f, cap, lo, hi - 1);
        assert(cap * (hi - 1 - lo) + cap == cap * (hi - lo)) by (nonlinear_arith);
    } else {
        assert(cap * (hi - lo) == 0) by (nonlinear_arith)
            requires
                hi == lo,
        ;
    }
}

/// The cells of `p` as integers.
pub open spec fn cell_fn(p: Piece) -> spec_fn(int, int) -> int {
    |r: int, c: int| p.at(r, c) as int
}

/// Row `r` of `f`.
pub open spec fn row_of(f: spec_fn(int, int) -> int, r: int) -> spec_fn(int) -> int {
    |c: int| f(r, c)
}

/// Column `c` of `f`.
pub open spec fn col_of(f: spec_fn(int, int) -> int, c: int) -> spec_fn(int) -> int {
    |r: int| f(r, c)
}

/// The sum of each row of `f` over its first `n` columns.
pub open spec fn row_sums(f: spec_fn(int, int) -> int, n: int) -> spec_fn(int) -> int {
    |r: int| sum(row_of(f, r), 0, n)
}

/// The sum of each column of `f` over its first `m` rows.
pub open spec fn col_sums(f: spec_fn(int, int) -> int, m: int) -> spec_fn(int) -> int {
    |c: int| sum(col_of(f, c), 0, m)
}

/// The total of all cells of `p`; for a 0/1 grid, the number of filled cells.
pub open spec fn weight(p: Piece) -> int {
    sum(row_sums(cell_fn(p), 7), 0, 7)
}

/// Summing rows first or columns first gives the same total.
proof fn lemma_fubini(f: spec_fn(int, int) -> int, m: int, n: int)
    requires
        0 <= m,
        0 <= n,
    ensures
        sum(row_sums(f, n), 0, m) == sum(col_sums(f, m), 0, n),
    decreases m,
{
    if m == 0 {
        lemma_sum_zero(col_sums(f, 0), 0, n);
    } else {
        lemma_fubini(f, m - 1, n);
        lemma_sum_add(col_sums(f, m - 1), row_of(f, m - 1), col_sums(f, m), 0, n);
    }
}

/// Transposing keeps the total.
pub proof fn lemma_weight_transposed(p: Piece)
    ensures
        weight(transposed(p)) == weight(p),
{
    let tp = transposed(p);
    lemma_grid_of(|r: int, c: int| p.at(c, r));
    assert forall|r: int| 0 <= r < 7 implies #[trigger] row_sums(cell_fn(tp), 7)(r) == col_sums(
        cell_fn(p),
        7,
    )(r) by {
        assert forall|c: int| 0 <= c < 7 implies #[trigger] row_of(cell_fn(tp), r)(c) == col_of(
            cell_fn(p),
            r,
        )(c) by {
            assert(in_grid(r, c));
        }
        lemma_sum_ext(row_of(cell_fn(tp), r), col_of(cell_fn(p), r), 0, 7);
    }
    lemma_sum_ext(row_sums(cell_fn(tp), 7), col_sums(cell_fn(p), 7), 0, 7);
    lemma_fubini(cell_fn(p), 7, 7);
}

/// Flipping keeps the total.
pub proof fn lemma_weight_flipped(p: Piece)
    ensures
        weight(flipped(p)) == weight(p),
{
    let fp = flipped(p);
    lemma_grid_of(|r: int, c: int| p.at(6 - r, c));
    assert forall|r: int| 0 <= r < 7 implies #[trigger] row_sums(cell_fn(fp), 7)(r) == row_sums(
        cell_fn(p),
        7,
    )(6 - r) by {
        assert forall|c: int| 0 <= c < 7 implies #[trigger] row_of(cell_fn(fp), r)(c) == row_of(
            cell_fn(p),
            6 - r,
        )(c) by {
            assert(in_grid(r, c));
        }
        lemma_sum_ext(row_of(cell_fn(fp), r), row_of(cell_fn(p), 6 - r), 0, 7);
    }
    lemma_sum_reverse(row_sums(cell_fn(p), 7), row_sums(cell_fn(fp), 7), 6, 0, 7);
}

/// Turning keeps the total.
pub proof fn lemma_weight_rotated(p: Piece)
    ensures
        weight(rotated(p)) == weight(p),
{
    lemma_weight_flipped(p);
    lemma_weight_transposed(flipped(p));
}

/// Row `r` of `p` as a function of the column, zero off the grid.
pub open spec fn padded_row(p: Piece, r: int) -> spec_fn(int) -> int {
    |c: int|
        if in_grid(r, c) {
            p.at(r, c) as int
        } else {
            0
        }
}

/// The row sums of `p`, zero off the grid.
pub open spec fn padded_row_sums(p: Piece) -> spec_fn(int) -> int {
    |r: int|
        if 0 <= r < 7 {
            row_sums(cell_fn(p), 7)(r)
        } else {
            0
        }
}

/// Moving a grid keeps its total when no filled cell leaves the grid.
pub proof fn lemma_weight_moved(p: Piece, dr: int, dc: int)
    requires
        forall|r: int, c: int|
            #![trigger p.at(r, c)]
            in_grid(r, c) && p.at(r, c) != 0 ==> in_grid(r + dr, c + dc),
    ensures
        weight(moved(p, dr, dc)) == weight(p),
{
    let m = moved(p, dr, dc);
    lemma_moved(p, dr, dc);
    let big = padded_row_sums(p);
    assert forall|r: int| 0 <= r < 7 implies #[trigger] row_sums(cell_fn(m), 7)(r) == big(r - dr) by {
        let r0 = r - dr;
        let h = padded_row(p, r0);
        assert forall|c: int| 0 <= c < 7 implies #[trigger] row_of(cell_fn(m), r)(c) == h(c - dc) by {
            assert(in_grid(r, c));
        }
        lemma_sum_shift(h, row_of(cell_fn(m), r), -dc, 0, 7);
        if 0 <= r0 < 7 {
            assert forall|c: int| -dc <= c < 7 - dc && !(0 <= c < 7) implies #[trigger] h(c) == 0 by {}
            assert forall|c: int| 0 <= c < 7 && !(-dc <= c < 7 - dc) implies #[trigger] h(c) == 0 by {
                assert(in_grid(r0, c));
                if p.at(r0, c) != 0 {
                    assert(in_grid(r0 + dr, c + dc));
                }
            }
            lemma_sum_window(h, -dc, 7 - dc, 0, 7);
            assert forall|c: int| 0 <= c < 7 implies #[trigger] h(c) == row_of(cell_fn(p), r0)(c) by {
                assert(in_grid(r0, c));
            }
            lemma_sum_ext(h, row_of(cell_fn(p), r0), 0, 7);
        } else {
            assert forall|c: int| -dc <= c < 7 - dc implies #[trigger] h(c) == 0 by {}
            lemma_sum_zero(h, -dc, 7 - dc);
        }
    }
    lemma_sum_shift(big, row_sums(cell_fn(m), 7), -dr, 0, 7);
    assert forall|r: int| -dr <= r < 7 - dr && !(0 <= r < 7) implies #[trigger] big(r) == 0 by {}
    assert forall|r: int| 0 <= r < 7 && !(-dr <= r < 7 - dr) implies #[trigger] big(r) == 0 by {
        assert forall|c: int| 0 <= c < 7 implies #[trigger] row_of(cell_fn(p), r)(c) == 0 by {
            assert(in_grid(r, c));
            if p.at(r, c) != 0 {
                assert(in_grid(r + dr, c + dc));
            }
        }
        lemma_sum_zero(row_of(cell_fn(p), r), 0, 7);
    }
    lemma_sum_window(big, -dr, 7 - dr, 0, 7);
    lemma_sum_ext(big, row_sums(cell_fn(p), 7), 0, 7);
}

/// Overlaying adds the totals, when no cell overflows.
pub proof fn lemma_weight_overlaid(a: Piece, b: Piece)
    requires
        crate::piece::can_overlay(a, b),
    ensures
        weight(overlaid(a, b)) == weight(a) + weight(b),
{
    let o = overlaid(a, b);
    lemma_grid_of(|r: int, c: int| (a.at(r, c) + b.at(r, c)) as u8);
    assert forall|r: int| 0 <= r < 7 implies #[trigger] row_sums(cell_fn(o), 7)(r) == row_sums(
        cell_fn(a),
        7,
    )(r) + row_sums(cell_fn(b), 7)(r) by {
        assert forall|c: int| 0 <= c < 7 implies #[trigger] row_of(cell_fn(o), r)(c) == row_of(
            cell_fn(a),
            r,
        )(c) + row_of(cell_fn(b), r)(c) by {
            assert(in_grid(r, c));
        }
        lemma_sum_add(row_of(cell_fn(a), r), row_of(cell_fn(b), r), row_of(cell_fn(o), r), 0, 7);
    }
    lemma_sum_add(row_sums(cell_fn(a), 7), row_sums(cell_fn(b), 7), row_sums(cell_fn(o), 7), 0, 7);
}

/// Shoving keeps the total.
pub proof fn lemma_weight_shoved(p: Piece)
    ensures
        weight(shoved(p)) == weight(p),
{
    lemma_bounding_box(p);
    lemma_weight_moved(p, -top_row(p), -left_col(p));
}

/// Every orientation of a tile has the tile's total.
proof fn lemma_weight_orientations(p: Piece)
    ensures
        forall|x: Piece| #[trigger] orientations(p).contains(x) ==> weight(x) == weight(p),
{
    let w = orientation_walk(p);
    lemma_dedup(w);
    lemma_weight_shoved(p);
    lemma_weight_rotated(w[0]);
    lemma_weight_shoved(rotated(w[0]));
    lemma_weight_rotated(w[1]);
    lemma_weight_shoved(rotated(w[1]));
    lemma_weight_rotated(w[2]);
    lemma_weight_shoved(rotated(w[2]));
    lemma_weight_flipped(w[3]);
    lemma_weight_shoved(flipped(w[3]));
    lemma_weight_rotated(w[4]);
    lemma_weight_shoved(rotated(w[4]));
    lemma_weight_rotated(w[5]);
    lemma_weight_shoved(rotated(w[5]));
    lemma_weight_rotated(w[6]);
    lemma_weight_shoved(rotated(w[6]));
    assert forall|x: Piece| #[trigger] orientations(p).contains(x) implies weight(x) == weight(p) by {
        assert(w.contains(x));
        let k = choose|k: int| 0 <= k < 8 && w[k] == x;
        assert(k == 0 || k == 1 || k == 2 || k == 3 || k == 4 || k == 5 || k == 6 || k == 7);
    }
}

/// Every shift of a piece has the piece's total.
proof fn lemma_weight_shifts(p: Piece)
    ensures
        forall|i: int| 0 <= i < shifts(p).len() ==> #[trigger] weight(shifts(p)[i]) == weight(p),
{
    let q = shoved(p);
    let n = col_offsets(q);
    let nr = row_offsets(q);
    lemma_weight_shoved(p);
    lemma_bounding_box(q);
    assert forall|i: int| 0 <= i < shifts(p).len() implies #[trigger] weight(shifts(p)[i]) == weight(
        p,
    ) by {
        assert(n >= 1 && nr >= 1);
        lemma_fundamental_div_mod(i, n);
        lemma_mod_bound(i, n);
        let a = i / n;
        let b = i % n;
        assert(i < nr * n);
        assert(a < nr) by (nonlinear_arith)
            requires
                i == n * a + b,
                0 <= b < n,
                i < nr * n,
                n >= 1,
        ;
        assert(a >= 0) by (nonlinear_arith)
            requires
                i == n * a + b,
                b < n,
                i >= 0,
                n >= 1,
        ;
        assert(shifts(p)[i] == moved(q, a, b));
        lemma_weight_moved(q, a, b);
    }
}

/// Every placement of a tile has the tile's total.
pub proof fn lemma_weight_placements(p: Piece)
    ensures
        forall|i: int|
            0 <= i < placements(p).len() ==> #[trigger] weight(placements(p)[i]) == weight(p),
{
    let os = orientations(p);
    let parts = os.map_values(|o: Piece| shifts(o));
    lemma_weight_orientations(p);
    assert forall|i: int| 0 <= i < placements(p).len() implies #[trigger] weight(placements(p)[i])
        == weight(p) by {
        let kj = lemma_concat_index(parts, i);
        let o = os[kj.0];
        assert(os.contains(o));
        assert(parts[kj.0] == shifts(o));
        lemma_weight_shifts(o);
        assert(weight(shifts(o)[kj.1]) == weight(o));
    }
}

proof fn lemma_tile_cells(k: int)
    ensures
        forall|r: int, c: int|
            #![trigger tile(k).at(r, c)]
            in_grid(r, c) ==> tile(k).at(r, c) == if tile_covers(k, r, c) {
                1u8
            } else {
                0u8
            },
{
    let f = |r: int, c: int|
        if tile_covers(k, r, c) {
            1u8
        } else {
            0u8
        };
    assert(tile(k) == crate::piece::grid_of(f));
    lemma_grid_of(f);
    assert forall|r: int, c: int| #![trigger tile(k).at(r, c)] in_grid(r, c) implies tile(k).at(r, c)
        == f(r, c) by {
        assert(in_grid(r, c));
    }
}

/// The first tile covers six cells, each of the others five.
pub proof fn lemma_tile_weight(k: int)
    requires
        0 <= k < 8,
    ensures
        weight(tile(k)) == if k == 0 {
            6int
        } else {
            5int
        },
{
    let t = tile(k);
    lemma_tile_cells(k);
    reveal_with_fuel(sum, 8);
    assert(row_sums(cell_fn(t), 7)(0) == sum(row_of(cell_fn(t), 0), 0, 7));
    assert(row_sums(cell_fn(t), 7)(1) == sum(row_of(cell_fn(t), 1), 0, 7));
    assert(row_sums(cell_fn(t), 7)(2) == sum(row_of(cell_fn(t), 2), 0, 7));
    assert(row_sums(cell_fn(t), 7)(3) == sum(row_of(cell_fn(t), 3), 0, 7));
    assert(row_sums(cell_fn(t), 7)(4) == sum(row_of(cell_fn(t), 4), 0, 7));
    assert(row_sums(cell_fn(t), 7)(5) == sum(row_of(cell_fn(t), 5), 0, 7));
    assert(row_sums(cell_fn(t), 7)(6) == sum(row_of(cell_fn(t), 6), 0, 7));
}

/// A flat grid whose cells add up to 49 holds 1 in every cell.
proof fn lemma_full_and_flat(p: Piece)
    requires
        flat(p),
        weight(p) == 49,
    ensures
        forall|r: int, c: int| in_grid(r, c) ==> p.at(r, c) == 1,
{
    let rows = row_sums(cell_fn(p), 7);
    assert forall|r: int| 0 <= r < 7 implies 0 <= #[trigger] rows(r) <= 7 by {
        assert forall|c: int| 0 <= c < 7 implies 0 <= #[trigger] row_of(cell_fn(p), r)(c) <= 1 by {
            assert(in_grid(r, c));
        }
        lemma_sum_capped(row_of(cell_fn(p), r), 1, 0, 7);
    }
    lemma_sum_capped(rows, 7, 0, 7);
    assert forall|r: int, c: int| in_grid(r, c) implies p.at(r, c) == 1 by {
        assert(rows(r) == 7);
        assert forall|j: int| 0 <= j < 7 implies 0 <= #[trigger] row_of(cell_fn(p), r)(j) <= 1 by {
            assert(in_grid(r, j));
        }
        lemma_sum_capped(row_of(cell_fn(p), r), 1, 0, 7);
        assert(row_of(cell_fn(p), r)(c) == 1);
    }
}

/// The number of cells the first `j` tiles cover together.
pub open spec fn tiles_area(j: int) -> int {
    if j <= 0 {
        0
    } else {
        5 * j + 1
    }
}

proof fn lemma_layered_weight(board: Piece, ps: Seq<Piece>, j: int)
    requires
        flat(board),
        ps.len() == 8,
        valid_extension(board, tile_placements(), 0, ps),
        0 <= j <= 8,
    ensures
        weight(layered(board, ps.take(j))) == weight(board) + tiles_area(j),
    decreases j,
{
    let t = tile_placements();
    if j == 0 {
        assert(ps.take(0) =~= Seq::<Piece>::empty());
    } else {
        lemma_layered_weight(board, ps, j - 1);
        let before = layered(board, ps.take(j - 1));
        let p = ps[j - 1];
        assert(ps.take(j).drop_last() =~= ps.take(j - 1));
        assert(ps.take(j).last() == p);
        assert(t[0 + (j - 1)].contains(p));
        assert(t[j - 1] == crate::placement::placements(tile(j - 1)));
        let m = choose|m: int| 0 <= m < t[j - 1].len() && #[trigger] t[j - 1][m] == p;
        lemma_weight_placements(tile(j - 1));
        crate::solver::lemma_tiles(j - 1);
        lemma_placements_flat(tile(j - 1));
        lemma_tile_weight(j - 1);
        assert(p == crate::placement::placements(tile(j - 1))[m]);
        assert(flat(p));
        if j - 1 >= 1 {
            assert(flat(layered(board, ps.take(j - 1))));
        } else {
            assert(ps.take(0) =~= Seq::<Piece>::empty());
            assert(before == board);
        }
        assert(crate::piece::can_overlay(before, p));
        lemma_weight_overlaid(before, p);
    }
}

/// On a flat board with exactly as many empty cells as the eight tiles cover
/// together, every solution the search finds covers each cell exactly once:
/// its board holds 1 in every cell.
pub proof fn lemma_solutions_cover_exactly(board: Piece)
    requires
        flat(board),
        weight(board) + tiles_area(8) == 49,
    ensures
        forall|i: int|
            0 <= i < completions(seq![], board, tile_placements(), 8).len() ==> forall|r: int, c: int|
                in_grid(r, c) ==> (#[trigger] completions(seq![], board, tile_placements(), 8)[i]).1.at(
                    r,
                    c,
                ) == 1,
{
    let t = tile_placements();
    let all = completions(seq![], board, t, 8);
    lemma_search_sound(seq![], board, t, 8);
    assert forall|i: int| 0 <= i < all.len() implies forall|r: int, c: int|
        in_grid(r, c) ==> (#[trigger] all[i]).1.at(r, c) == 1 by {
        let x = all[i];
        let ps = x.0.subrange(0, 8);
        lemma_layered_weight(board, ps, 8);
        assert(ps.take(8) =~= ps);
        assert(flat(layered(board, ps.take(8))));
        lemma_full_and_flat(x.1);
    }
}

/// Changing one term of a sum changes the sum by as much.
proof fn lemma_sum_one_changed(f: spec_fn(int) -> int, g: spec_fn(int) -> int, k: int, lo: int, hi: int)
    requires
        lo <= k < hi,
        forall|i: int| lo <= i < hi && i != k ==> #[trigger] f(i) == g(i),
    ensures
        sum(g, lo, hi) == sum(f, lo, hi) + g(k) - f(k),
    decreases hi - lo,
{
    if hi - 1 > k {
        lemma_sum_one_changed(f, g, k, lo, hi - 1);
    } else {
        lemma_sum_ext(f, g, lo, hi - 1);
    }
}

/// Setting one cell changes the total by the difference.
proof fn lemma_weight_with_cell(p: Piece, r: int, c: int, v: u8)
    requires
        in_grid(r, c),
    ensures
        weight(with_cell(p, r, c, v)) == weight(p) + v - p.at(r, c),
{
    let q = with_cell(p, r, c, v);
    lemma_with_cell(p, r, c, v);
    assert forall|i: int| 0 <= i < 7 && i != r implies #[trigger] row_sums(cell_fn(p), 7)(i)
        == row_sums(cell_fn(q), 7)(i) by {
        assert forall|j: int| 0 <= j < 7 implies #[trigger] row_of(cell_fn(p), i)(j) == row_of(
            cell_fn(q),
            i,
        )(j) by {
            assert(in_grid(i, j));
        }
        lemma_sum_ext(row_of(cell_fn(p), i), row_of(cell_fn(q), i), 0, 7);
    }
    assert forall|j: int| 0 <= j < 7 && j != c implies #[trigger] row_of(cell_fn(p), r)(j) == row_of(
        cell_fn(q),
        r,
    )(j) by {
        assert(in_grid(r, j));
    }
    lemma_sum_one_changed(row_of(cell_fn(p), r), row_of(cell_fn(q), r), c, 0, 7);
    lemma_sum_one_changed(row_sums(cell_fn(p), 7), row_sums(cell_fn(q), 7), r, 0, 7);
}

/// The empty board has its six blocked cells filled, and nothing else.
proof fn lemma_starting_weight()
    ensures
        weight(starting_grid()) == 6,
        forall|r: int, c: int|
            #![trigger starting_grid().at(r, c)]
            in_grid(r, c) ==> starting_grid().at(r, c) == if blocked(r, c) {
                1u8
            } else {
                0u8
            },
{
    let b = starting_grid();
    let f = |r: int, c: int|
        if blocked(r, c) {
            1u8
        } else {
            0u8
        };
    assert(b == crate::piece::grid_of(f));
    lemma_grid_of(f);
    assert forall|r: int, c: int| #![trigger b.at(r, c)] in_grid(r, c) implies b.at(r, c) == f(
        r,
        c,
    ) by {
        assert(in_grid(r, c));
    }
    reveal_with_fuel(sum, 8);
    assert(row_sums(cell_fn(b), 7)(0) == sum(row_of(cell_fn(b), 0), 0, 7));
    assert(row_sums(cell_fn(b), 7)(1) == sum(row_of(cell_fn(b), 1), 0, 7));
    assert(row_sums(cell_fn(b), 7)(2) == sum(row_of(cell_fn(b), 2), 0, 7));
    assert(row_sums(cell_fn(b), 7)(3) == sum(row_of(cell_fn(b), 3), 0, 7));
    assert(row_sums(cell_fn(b), 7)(4) == sum(row_of(cell_fn(b), 4), 0, 7));
    assert(row_sums(cell_fn(b), 7)(5) == sum(row_of(cell_fn(b), 5), 0, 7));
    assert(row_sums(cell_fn(b), 7)(6) == sum(row_of(cell_fn(b), 6), 0, 7));
}

/// The cell a label names lies on the board, not among its blocked cells.
proof fn lemma_labelled_cell(label: Seq<char>, n: int)
    requires
        0 <= n <= 49,
        first_labelled(label, n) < 49,
    ensures
        n <= first_labelled(label, n),
        label_of(first_labelled(label, n) / 7, first_labelled(label, n) % 7) == Some(label),
    decreases 49 - n,
{
    if label_of(n / 7, n % 7) != Some(label) {
        lemma_labelled_cell(label, n + 1);
    }
}

/// With two labels that name two different cells, every solution the search
/// finds covers each remaining cell exactly once.
pub proof fn lemma_dated_solutions_cover_exactly(labels: Seq<Seq<char>>)
    requires
        labels.len() == 2,
        opened_board(labels) is Some,
        first_labelled(labels[0], 0) != first_labelled(labels[1], 0),
    ensures
        ({
            let b = opened_board(labels)->0;
            forall|i: int|
                0 <= i < completions(seq![], b, tile_placements(), 8).len() ==> forall|
                    r: int,
                    c: int,
                |
                    in_grid(r, c) ==> (#[trigger] completions(seq![], b, tile_placements(), 8)[i]).1.at(
                        r,
                        c,
                    ) == 1
        }),
{
    let l0 = labels[0];
    let l1 = labels[1];
    let one = labels.drop_last();
    assert(one.drop_last() =~= Seq::<Seq<char>>::empty());
    assert(one.last() == l0);
    assert(labels.last() == l1);
    let b0 = starting_grid();
    let n0 = first_labelled(l0, 0);
    let n1 = first_labelled(l1, 0);
    assert(opened_board(one.drop_last()) == Some(b0));
    assert(opened_board(one) == crate::board::marked(b0, l0));
    let b1 = with_cell(b0, n0 / 7, n0 % 7, 1);
    let b2 = with_cell(b1, n1 / 7, n1 % 7, 1);
    assert(opened_board(labels) == Some(b2));
    lemma_starting_weight();
    lemma_labelled_cell(l0, 0);
    lemma_labelled_cell(l1, 0);
    assert(in_grid(n0 / 7, n0 % 7));
    assert(in_grid(n1 / 7, n1 % 7));
    assert(n0 / 7 != n1 / 7 || n0 % 7 != n1 % 7);
    lemma_with_cell(b0, n0 / 7, n0 % 7, 1);
    lemma_with_cell(b1, n1 / 7, n1 % 7, 1);
    lemma_weight_with_cell(b0, n0 / 7, n0 % 7, 1);
    lemma_weight_with_cell(b1, n1 / 7, n1 % 7, 1);
    assert(flat(b2)) by {
        assert forall|r: int, c: int| in_grid(r, c) implies b2.at(r, c) <= 1 by {}
    }
    lemma_solutions_cover_exactly(b2);
}

} // verus!
