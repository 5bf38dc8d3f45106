//! Every position of a tile on the grid: its orientations, then every shift of each.
use crate::piece::{
    bottom_row, col_filled, flat, left_col, lemma_moved, row_filled, top_row, flipped, in_grid, is_empty, lemma_bottom_row_is, lemma_bounding_box,
    lemma_moved_zero, lemma_right_col_is, lemma_roll_down_moved, lemma_roll_right_moved,
    lemma_transforms_keep, moved, right_col, rotated, shoved, Piece, PIECE_SIZE,
};
use vstd::arithmetic::div_mod::lemma_fundamental_div_mod_converse;
use vstd::prelude::*;

verus! {

/// The eight images of `p` met on the walk round its symmetries: the shoved
/// piece, three quarter turns, a flip, and three more quarter turns, each
/// shoved into the top-left corner.
pub open spec fn orientation_walk(p: Piece) -> Seq<Piece> {
    let o0 = shoved(p);
    let o1 = shoved(rotated(o0));
    let o2 = shoved(rotated(o1));
    let o3 = shoved(rotated(o2));
    let o4 = shoved(flipped(o3));
    let o5 = shoved(rotated(o4));
    let o6 = shoved(rotated(o5));
    let o7 = shoved(rotated(o6));
    seq![o0, o1, o2, o3, o4, o5, o6, o7]
}

/// `s` with every repeated item after its first occurrence left out.
pub open spec fn dedup(s: Seq<Piece>) -> Seq<Piece>
    decreases s.len(),
{
    if s.len() == 0 {
        s
    } else {
        let d = dedup(s.drop_last());
        if d.contains(s.last()) {
            d
        } else {
            d.push(s.last())
        }
    }
}

/// The distinct orientations of `p`, in the order the walk meets them.
pub open spec fn orientations(p: Piece) -> Seq<Piece> {
    dedup(orientation_walk(p))
}

/// How many row offsets a shoved piece `q` can take on the grid.
pub open spec fn row_offsets(q: Piece) -> int {
    7 - bottom_row(q)
}

/// How many column offsets a shoved piece `q` can take on the grid.
pub open spec fn col_offsets(q: Piece) -> int {
    7 - right_col(q)
}

/// Every shift of `p` that keeps all of it on the grid: the shoved piece moved
/// down by each row offset and, within that, right by each column offset.
pub open spec fn shifts(p: Piece) -> Seq<Piece> {
    let q = shoved(p);
    let n = col_offsets(q);
    Seq::new((row_offsets(q) * n) as nat, |k: int| moved(q, k / n, k % n))
}

/// The sequences of `s` one after another.
pub open spec fn concat(s: Seq<Seq<Piece>>) -> Seq<Piece>
    decreases s.len(),
{
    if s.len() == 0 {
        seq![]
    } else {
        concat(s.drop_last()) + s.last()
    }
}

/// Every placement of `p`: the shifts of each of its orientations.
pub open spec fn placements(p: Piece) -> Seq<Piece> {
    concat(orientations(p).map_values(|o: Piece| shifts(o)))
}

/// Leaving out repeats keeps exactly the items of `s`, each once.
pub proof fn lemma_dedup(s: Seq<Piece>)
    ensures
        dedup(s).len() <= s.len(),
        dedup(s).no_duplicates(),
        forall|x: Piece| dedup(s).contains(x) <==> s.contains(x),
    decreases s.len(),
{
    if s.len() > 0 {
        let t = s.drop_last();
        let d = dedup(t);
        let last = s.last();
        lemma_dedup(t);
        assert(s[s.len() - 1] == last);
        assert forall|x: Piece| dedup(s).contains(x) implies s.contains(x) by {
            if d.contains(x) {
                assert(t.contains(x));
                let k = choose|k: int| 0 <= k < t.len() && t[k] == x;
                assert(s[k] == x);
            } else {
                assert(dedup(s) == d.push(last));
                assert(x == last);
            }
        }
        assert forall|x: Piece| s.contains(x) implies dedup(s).contains(x) by {
            let k = choose|k: int| 0 <= k < s.len() && s[k] == x;
            if k < s.len() - 1 {
                assert(t[k] == x);
                assert(t.contains(x));
                assert(d.contains(x));
                if !d.contains(last) {
                    let m = choose|m: int| 0 <= m < d.len() && d[m] == x;
                    assert(d.push(last)[m] == x);
                }
            } else if !d.contains(last) {
                assert(d.push(last)[d.len() as int] == x);
            }
        }
    }
}

/// A tile has at most eight orientations, none repeated, and they are
/// exactly the images of the tile under the walk round its symmetries.
pub proof fn lemma_orientations_exhaustive(p: Piece)
    ensures
        orientations(p).len() <= 8,
        orientations(p).no_duplicates(),
        forall|x: Piece| orientations(p).contains(x) <==> orientation_walk(p).contains(x),
{
    lemma_dedup(orientation_walk(p));
}

/// Appends `x` to `out` unless `out` holds it already.
fn insert_new(out: &mut Vec<Piece>, x: Piece)
    ensures
        final(out)@ == if old(out)@.contains(x) {
            old(out)@
        } else {
            old(out)@.push(x)
        },
{
    let mut i: usize = 0;
    while i < out.len()
        invariant
            i <= out@.len(),
            forall|k: int| 0 <= k < i ==> out@[k] != x,
        decreases out@.len() - i,
    {
        if out[i] == x {
            return;
        }
        i += 1;
    }
    out.push(x);
}

proof fn lemma_dedup_step(s: Seq<Piece>, k: int)
    requires
        0 <= k < s.len(),
    ensures
        dedup(s.take(k + 1)) == if dedup(s.take(k)).contains(s[k]) {
            dedup(s.take(k))
        } else {
            dedup(s.take(k)).push(s[k])
        },
{
    assert(s.take(k + 1).drop_last() =~= s.take(k));
}

/// The distinct orientations of `piece`, each shoved into the top-left corner.
pub fn get_orientations(piece: &Piece) -> (v: Vec<Piece>)
    ensures
        v@ == orientations(*piece),
{
    let ghost walk = orientation_walk(*piece);
    let mut orientations: Vec<Piece> = Vec::new();
    let mut tmp = *piece;
    tmp.shove_left_up();
    proof {
        lemma_dedup_step(walk, 0);
        assert(walk.take(0) =~= seq![]);
    }
    insert_new(&mut orientations, tmp);
    let mut k: usize = 1;
    while k < 4
        invariant
            1 <= k <= 4,
            walk == orientation_walk(*piece),
            tmp == walk[k - 1],
            orientations@ == dedup(walk.take(k as int)),
        decreases 4 - k,
    {
        tmp.rotate90();
        tmp.shove_left_up();
        proof {
            lemma_dedup_step(walk, k as int);
        }
        insert_new(&mut orientations, tmp);
        k += 1;
    }
    tmp.flip_updown();
    tmp.shove_left_up();
    proof {
        lemma_dedup_step(walk, 4);
    }
    insert_new(&mut orientations, tmp);
    k = 5;
    while k < 8
        invariant
            5 <= k <= 8,
            walk == orientation_walk(*piece),
            tmp == walk[k - 1],
            orientations@ == dedup(walk.take(k as int)),
        decreases 8 - k,
    {
        tmp.rotate90();
        tmp.shove_left_up();
        proof {
            lemma_dedup_step(walk, k as int);
        }
        insert_new(&mut orientations, tmp);
        k += 1;
    }
    proof {
        assert(walk.take(8) =~= walk);
    }
    orientations
}

/// Every shift of `piece` that keeps it whole on the grid, without turning
/// or flipping it.
pub fn get_shifts(piece: &Piece) -> (v: Vec<Piece>)
    requires
        !is_empty(*piece),
    ensures
        v@ == shifts(*piece),
{
    let mut base = *piece;
    base.shove_left_up();
    let ghost q = base;
    proof {
        lemma_transforms_keep(*piece);
        lemma_bounding_box(q);
    }
    let mut last_col: usize = PIECE_SIZE - 1;
    while base.col_is_clear(last_col)
        invariant
            base == q,
            0 <= right_col(q) <= last_col < 7,
            col_filled(q, right_col(q)),
            forall|x: int| last_col < x < 7 ==> !col_filled(q, x),
        decreases last_col,
    {
        last_col -= 1;
    }
    let mut last_row: usize = PIECE_SIZE - 1;
    while base.row_is_clear(last_row)
        invariant
            base == q,
            0 <= bottom_row(q) <= last_row < 7,
            row_filled(q, bottom_row(q)),
            forall|x: int| last_row < x < 7 ==> !row_filled(q, x),
        decreases last_row,
    {
        last_row -= 1;
    }
    proof {
        lemma_right_col_is(q, last_col as int);
        lemma_bottom_row_is(q, last_row as int);
        lemma_moved_zero(q);
    }
    let n_rows = PIECE_SIZE - last_row;
    let n_cols = PIECE_SIZE - last_col;
    let mut placements: Vec<Piece> = Vec::new();
    let mut tmp_row_offsetted = base;
    let mut i: usize = 0;
    while i < n_rows
        invariant
            n_rows == 7 - bottom_row(q),
            n_cols == 7 - right_col(q),
            0 <= bottom_row(q) < 7,
            0 <= right_col(q) < 7,
            forall|r: int, c: int|
                #![trigger q.at(r, c)]
                in_grid(r, c) && q.at(r, c) != 0 ==> r <= bottom_row(q) && c <= right_col(q),
            i <= n_rows,
            placements@.len() == i * n_cols,
            forall|k: int|
                0 <= k < placements@.len() ==> placements@[k] == moved(q, k / (n_cols as int), k % (n_cols as int)),
            i < n_rows ==> tmp_row_offsetted == moved(q, i as int, 0),
        decreases n_rows - i,
    {
        let mut tmp_col_offsetted = tmp_row_offsetted;
        let mut j: usize = 0;
        proof {
            lemma_moved_zero(q);
        }
        while j < n_cols
            invariant
                n_rows == 7 - bottom_row(q),
                n_cols == 7 - right_col(q),
                0 <= bottom_row(q) < 7,
                0 <= right_col(q) < 7,
                forall|r: int, c: int|
                    #![trigger q.at(r, c)]
                    in_grid(r, c) && q.at(r, c) != 0 ==> r <= bottom_row(q) && c <= right_col(q),
                i < n_rows,
                j <= n_cols,
                placements@.len() == i * n_cols + j,
                forall|k: int|
                    0 <= k < placements@.len() ==> placements@[k] == moved(
                        q,
                        k / (n_cols as int),
                        k % (n_cols as int),
                    ),
                j < n_cols ==> tmp_col_offsetted == moved(q, i as int, j as int),
            decreases n_cols - j,
        {
            proof {
                lemma_fundamental_div_mod_converse(
                    i * n_cols + j,
                    n_cols as int,
                    i as int,
                    j as int,
                );
            }
            placements.push(tmp_col_offsetted);
            proof {
                if j + 1 < n_cols {
                    lemma_roll_right_moved(q, i as int, j as int);
                }
            }
            tmp_col_offsetted.roll_right();
            j += 1;
        }
        proof {
            assert((i + 1) * n_cols == i * n_cols + n_cols) by (nonlinear_arith);
            if i + 1 < n_rows {
                lemma_roll_down_moved(q, i as int);
            }
        }
        tmp_row_offsetted.roll_down();
        i += 1;
    }
    proof {
        assert(placements@ =~= shifts(*piece));
    }
    placements
}

/// Every orientation of a filled tile is filled, and every orientation of a
/// flat tile is flat.
pub proof fn lemma_orientations_keep(p: Piece)
    ensures
        forall|x: Piece|
            #[trigger] orientations(p).contains(x) ==> (!is_empty(p) ==> !is_empty(x)) && (flat(p)
                ==> flat(x)),
{
    let w = orientation_walk(p);
    lemma_dedup(w);
    lemma_transforms_keep(p);
    lemma_transforms_keep(w[0]);
    lemma_transforms_keep(rotated(w[0]));
    lemma_transforms_keep(w[1]);
    lemma_transforms_keep(rotated(w[1]));
    lemma_transforms_keep(w[2]);
    lemma_transforms_keep(rotated(w[2]));
    lemma_transforms_keep(w[3]);
    lemma_transforms_keep(flipped(w[3]));
    lemma_transforms_keep(w[4]);
    lemma_transforms_keep(rotated(w[4]));
    lemma_transforms_keep(w[5]);
    lemma_transforms_keep(rotated(w[5]));
    lemma_transforms_keep(w[6]);
    lemma_transforms_keep(rotated(w[6]));
    assert forall|x: Piece| #[trigger] orientations(p).contains(x) implies (!is_empty(p)
        ==> !is_empty(x)) && (flat(p) ==> flat(x)) by {
        assert(w.contains(x));
        let k = choose|k: int| 0 <= k < 8 && w[k] == x;
        assert(k == 0 || k == 1 || k == 2 || k == 3 || k == 4 || k == 5 || k == 6 || k == 7);
    }
}

/// Every placement of `piece`: each shift of each of its orientations.
pub fn get_placements(piece: &Piece) -> (v: Vec<Piece>)
    requires
        !is_empty(*piece),
    ensures
        v@ == placements(*piece),
{
    let found = get_orientations(piece);
    let ghost shifts_of = |o: Piece| shifts(o);
    let mut out: Vec<Piece> = Vec::new();
    let mut k: usize = 0;
    proof {
        lemma_orientations_keep(*piece);
        assert(found@.take(0).map_values(shifts_of) =~= seq![]);
    }
    while k < found.len()
        invariant
            k <= found@.len(),
            found@ == orientations(*piece),
            !is_empty(*piece),
            forall|x: Piece|
                #[trigger] orientations(*piece).contains(x) ==> !is_empty(x),
            shifts_of == (|o: Piece| shifts(o)),
            out@ == concat(found@.take(k as int).map_values(shifts_of)),
        decreases found@.len() - k,
    {
        assert(found@.contains(found@[k as int]));
        let mut s = get_shifts(&found[k]);
        proof {
            let next = found@.take(k + 1).map_values(shifts_of);
            assert(next.drop_last() =~= found@.take(k as int).map_values(shifts_of));
        }
        out.append(&mut s);
        k += 1;
    }
    proof {
        assert(found@.take(k as int) =~= found@);
    }
    out
}

/// A filled piece has one shift for each way its bounding box fits on the
/// grid: `(7 - height + 1) * (7 - width + 1)` of them.
pub proof fn lemma_shift_count(p: Piece)
    requires
        !is_empty(p),
    ensures
        shifts(p).len() == (7 - (bottom_row(p) - top_row(p) + 1) + 1) * (7 - (right_col(p)
            - left_col(p) + 1) + 1),
{
    let t = top_row(p);
    let l = left_col(p);
    let b = bottom_row(p);
    let rc = right_col(p);
    let q = shoved(p);
    lemma_bounding_box(p);
    lemma_moved(p, -t, -l);
    let c0 = choose|c: int| 0 <= c < 7 && p.at(b, c) != 0;
    assert(in_grid(b, c0));
    assert(q.at(b - t, c0 - l) != 0);
    assert forall|x: int| b - t < x < 7 implies !row_filled(q, x) by {
        if row_filled(q, x) {
            let c = choose|c: int| 0 <= c < 7 && q.at(x, c) != 0;
            assert(in_grid(x, c));
            assert(p.at(x + t, c + l) != 0);
        }
    }
    lemma_bottom_row_is(q, b - t);
    let r0 = choose|r: int| 0 <= r < 7 && p.at(r, rc) != 0;
    assert(in_grid(r0, rc));
    assert(q.at(r0 - t, rc - l) != 0);
    assert forall|x: int| rc - l < x < 7 implies !col_filled(q, x) by {
        if col_filled(q, x) {
            let r = choose|r: int| 0 <= r < 7 && q.at(r, x) != 0;
            assert(in_grid(r, x));
            assert(p.at(r + t, x + l) != 0);
        }
    }
    lemma_right_col_is(q, rc - l);
}

/// The position of item `i` of `concat(s)`: which part, and where in it.
pub proof fn lemma_concat_index(s: Seq<Seq<Piece>>, i: int) -> (kj: (int, int))
    requires
        0 <= i < concat(s).len(),
    ensures
        0 <= kj.0 < s.len(),
        0 <= kj.1 < s[kj.0].len(),
        concat(s)[i] == s[kj.0][kj.1],
    decreases s.len(),
{
    let front = s.drop_last();
    let c = concat(front);
    if i >= c.len() {
        (s.len() - 1, i - c.len())
    } else {
        let kj = lemma_concat_index(front, i);
        assert(front[kj.0] == s[kj.0]);
        kj
    }
}

} // verus!
