//! The backtracking search that lays one placement of each tile on the board,
//! and the driver that fans its subtrees out over worker threads.
use crate::board::{
    lemma_with_cell, marked, starting_grid, tile, tile_covers, UnknownLabel, TILE_COUNT,
};
use crate::piece::{flat, grid_of, in_grid, is_empty, lemma_grid_of, overlaid, Piece};
use crate::placement::{
    get_placements, lemma_concat_index, lemma_orientations_keep, orientations, placements, shifts,
};
use rayon::iter::{IndexedParallelIterator, IntoParallelRefIterator, ParallelIterator};
use vstd::prelude::*;

verus! {

/// Some tiles laid on the board: the placement chosen for each of the first
/// tiles, in tile order, and the board with all of them overlaid.
pub struct Arrangement {
    pub pieces: Vec<Piece>,
    pub board: Piece,
}

impl View for Arrangement {
    type V = (Seq<Piece>, Piece);

    open spec fn view(&self) -> (Seq<Piece>, Piece) {
        (self.pieces@, self.board)
    }
}

/// The arrangements of `s` as plain values.
pub open spec fn views(s: Seq<Arrangement>) -> Seq<(Seq<Piece>, Piece)> {
    s.map_values(|a: Arrangement| a@)
}

/// The candidate placements of each tile as plain values.
pub open spec fn table_view(t: Seq<Vec<Piece>>) -> Seq<Seq<Piece>> {
    t.map_values(|v: Vec<Piece>| v@)
}

/// Whether every placement in the table is a 0/1 grid.
pub open spec fn table_ok(t: Seq<Seq<Piece>>) -> bool {
    forall|k: int, i: int| 0 <= k < t.len() && 0 <= i < t[k].len() ==> #[trigger] flat(t[k][i])
}

/// Whether every cell of `board` can take one more layer.
pub open spec fn has_room(board: Piece) -> bool {
    forall|r: int, c: int| in_grid(r, c) ==> board.at(r, c) < 255
}

/// Whether `p` can be laid on `board` without overlapping what is there.
pub open spec fn fits(board: Piece, p: Piece) -> bool {
    flat(overlaid(board, p))
}

/// Every way to extend `placed` (which made `board`) with one placement per
/// tile up to tile `stop`, in search order: each tile's candidates are tried
/// in table order, and a candidate is kept only where it fits.
pub open spec fn completions(
    placed: Seq<Piece>,
    board: Piece,
    t: Seq<Seq<Piece>>,
    stop: int,
) -> Seq<(Seq<Piece>, Piece)>
    decreases stop - placed.len(), 1int, 0int,
{
    if placed.len() >= stop {
        seq![(placed, board)]
    } else {
        branches(placed, board, t, stop, t[placed.len() as int].len() as int)
    }
}

/// The completions that go through the first `n` candidates of the next tile.
pub open spec fn branches(
    placed: Seq<Piece>,
    board: Piece,
    t: Seq<Seq<Piece>>,
    stop: int,
    n: int,
) -> Seq<(Seq<Piece>, Piece)>
    decreases stop - placed.len(), 0int, n,
{
    if n <= 0 || placed.len() >= stop {
        seq![]
    } else {
        let p = t[placed.len() as int][n - 1];
        branches(placed, board, t, stop, n - 1) + if fits(board, p) {
            completions(placed.push(p), overlaid(board, p), t, stop)
        } else {
            seq![]
        }
    }
}

/// `placed` with `p` added at the end.
fn extended(placed: &Vec<Piece>, p: Piece) -> (v: Vec<Piece>)
    ensures
        v@ == placed@.push(p),
{
    let mut v = copied(placed);
    v.push(p);
    v
}

/// A copy of `placed`.
fn copied(placed: &Vec<Piece>) -> (v: Vec<Piece>)
    ensures
        v@ == placed@,
{
    let mut v: Vec<Piece> = Vec::new();
    let mut i: usize = 0;
    while i < placed.len()
        invariant
            i <= placed@.len(),
            v@ == placed@.take(i as int),
        decreases placed@.len() - i,
    {
        v.push(placed[i]);
        i += 1;
        assert(v@ =~= placed@.take(i as int));
    }
    assert(v@ =~= placed@);
    v
}

/// Appends to `out`, in search order, every arrangement that extends `placed`
/// up to tile `stop_at`.
pub fn search(
    placed: Vec<Piece>,
    board: Piece,
    table: &Vec<Vec<Piece>>,
    stop_at: usize,
    out: &mut Vec<Arrangement>,
)
    requires
        placed@.len() <= stop_at <= table@.len(),
        table_ok(table_view(table@)),
        has_room(board),
    ensures
        views(final(out)@) == views(old(out)@) + completions(
            placed@,
            board,
            table_view(table@),
            stop_at as int,
        ),
    decreases stop_at - placed@.len(),
{
    let ghost t = table_view(table@);
    if placed.len() == stop_at {
        let ghost before = out@;
        out.push(Arrangement { pieces: placed, board });
        proof {
            assert(views(out@) =~= views(before).push((placed@, board)));
            assert(views(out@) =~= views(before) + completions(placed@, board, t, stop_at as int));
        }
    } else {
        let k = placed.len();
        let candidates = &table[k];
        assert(candidates@ == t[k as int]);
        let mut i: usize = 0;
        while i < candidates.len()
            invariant
                k == placed@.len() < stop_at <= table@.len(),
                t == table_view(table@),
                candidates@ == t[k as int],
                table_ok(t),
                has_room(board),
                i <= candidates@.len(),
                views(out@) == views(old(out)@) + branches(
                    placed@,
                    board,
                    t,
                    stop_at as int,
                    i as int,
                ),
            decreases candidates@.len() - i,
        {
            let placement = candidates[i];
            assert(flat(t[k as int][i as int]));
            let new_board = board.overlay(&placement);
            if new_board.is_flat() {
                let new_pieces = extended(&placed, placement);
                search(new_pieces, new_board, table, stop_at, out);
            }
            i += 1;
            proof {
                assert(views(out@) =~= views(old(out)@) + branches(
                    placed@,
                    board,
                    t,
                    stop_at as int,
                    i as int,
                ));
            }
        }
    }
}

/// The completions of each partial arrangement of `parts` up to tile `stop`,
/// one after another.
pub open spec fn resume_all(
    parts: Seq<(Seq<Piece>, Piece)>,
    t: Seq<Seq<Piece>>,
    stop: int,
) -> Seq<(Seq<Piece>, Piece)>
    decreases parts.len(),
{
    if parts.len() == 0 {
        seq![]
    } else {
        resume_all(parts.drop_last(), t, stop) + completions(parts.last().0, parts.last().1, t, stop)
    }
}

proof fn lemma_resume_all_add(
    a: Seq<(Seq<Piece>, Piece)>,
    b: Seq<(Seq<Piece>, Piece)>,
    t: Seq<Seq<Piece>>,
    stop: int,
)
    ensures
        resume_all(a + b, t, stop) == resume_all(a, t, stop) + resume_all(b, t, stop),
    decreases b.len(),
{
    if b.len() == 0 {
        assert(a + b =~= a);
        assert(resume_all(a, t, stop) + resume_all(b, t, stop) =~= resume_all(a, t, stop));
    } else {
        assert((a + b).drop_last() =~= a + b.drop_last());
        lemma_resume_all_add(a, b.drop_last(), t, stop);
        assert(resume_all(a + b, t, stop) =~= resume_all(a, t, stop) + resume_all(b, t, stop));
    }
}

/// Searching up to tile `mid` and then resuming every partial arrangement up
/// to tile `stop` finds exactly what one search up to `stop` finds, in the
/// same order. So the driver, which resumes the partial arrangements on
/// separate workers, finds the same solutions whatever the number of workers.
pub proof fn lemma_split_search(
    placed: Seq<Piece>,
    board: Piece,
    t: Seq<Seq<Piece>>,
    mid: int,
    stop: int,
)
    requires
        placed.len() <= mid <= stop,
    ensures
        resume_all(completions(placed, board, t, mid), t, stop) == completions(
            placed,
            board,
            t,
            stop,
        ),
    decreases mid - placed.len(), 1int, 0int,
{
    if placed.len() >= mid {
        let one = seq![(placed, board)];
        assert(completions(placed, board, t, mid) == one);
        assert(one.drop_last() =~= Seq::<(Seq<Piece>, Piece)>::empty());
        assert(resume_all(one.drop_last(), t, stop) == Seq::<(Seq<Piece>, Piece)>::empty());
        assert(one.last() == (placed, board));
        assert(resume_all(one, t, stop) =~= completions(placed, board, t, stop));
    } else {
        lemma_split_branches(placed, board, t, mid, stop, t[placed.len() as int].len() as int);
    }
}

proof fn lemma_split_branches(
    placed: Seq<Piece>,
    board: Piece,
    t: Seq<Seq<Piece>>,
    mid: int,
    stop: int,
    n: int,
)
    requires
        placed.len() < mid <= stop,
    ensures
        resume_all(branches(placed, board, t, mid, n), t, stop) == branches(
            placed,
            board,
            t,
            stop,
            n,
        ),
    decreases mid - placed.len(), 0int, n,
{
    if n > 0 {
        let p = t[placed.len() as int][n - 1];
        lemma_split_branches(placed, board, t, mid, stop, n - 1);
        let rest = if fits(board, p) {
            completions(placed.push(p), overlaid(board, p), t, mid)
        } else {
            seq![]
        };
        lemma_resume_all_add(branches(placed, board, t, mid, n - 1), rest, t, stop);
        if fits(board, p) {
            lemma_split_search(placed.push(p), overlaid(board, p), t, mid, stop);
        } else {
            assert(resume_all(rest, t, stop) =~= seq![]);
        }
    }
}

/// Every arrangement found holds one placement per tile up to `stop`, and its
/// board is either the board it started from or flat.
pub proof fn lemma_completions_shape(placed: Seq<Piece>, board: Piece, t: Seq<Seq<Piece>>, stop: int)
    requires
        placed.len() <= stop,
    ensures
        forall|i: int|
            0 <= i < completions(placed, board, t, stop).len() ==> {
                let x = #[trigger] completions(placed, board, t, stop)[i];
                x.0.len() == stop && (x.1 == board || flat(x.1))
            },
    decreases stop - placed.len(), 1int, 0int,
{
    if placed.len() < stop {
        let n = t[placed.len() as int].len() as int;
        assert(completions(placed, board, t, stop) == branches(placed, board, t, stop, n));
        lemma_branches_shape(placed, board, t, stop, n);
    } else {
        assert(completions(placed, board, t, stop) == seq![(placed, board)]);
    }
}

proof fn lemma_branches_shape(
    placed: Seq<Piece>,
    board: Piece,
    t: Seq<Seq<Piece>>,
    stop: int,
    n: int,
)
    requires
        placed.len() < stop,
    ensures
        forall|i: int|
            0 <= i < branches(placed, board, t, stop, n).len() ==> {
                let x = #[trigger] branches(placed, board, t, stop, n)[i];
                x.0.len() == stop && flat(x.1)
            },
    decreases stop - placed.len(), 0int, n,
{
    if n > 0 {
        let p = t[placed.len() as int][n - 1];
        lemma_branches_shape(placed, board, t, stop, n - 1);
        let head = branches(placed, board, t, stop, n - 1);
        if fits(board, p) {
            let nb = overlaid(board, p);
            lemma_completions_shape(placed.push(p), nb, t, stop);
            let rest = completions(placed.push(p), nb, t, stop);
            assert forall|i: int| 0 <= i < (head + rest).len() implies {
                let x = #[trigger] (head + rest)[i];
                x.0.len() == stop && flat(x.1)
            } by {
                if i >= head.len() {
                    assert((head + rest)[i] == rest[i - head.len()]);
                }
            }
        } else {
            assert(head + seq![] =~= head);
        }
    }
}

/// Resumes the search from `partial` until every tile is placed.
pub fn complete(partial: &Arrangement, table: &Vec<Vec<Piece>>) -> (v: Vec<Arrangement>)
    requires
        partial.pieces@.len() <= table@.len(),
        table_ok(table_view(table@)),
        has_room(partial.board),
    ensures
        views(v@) == completions(
            partial.pieces@,
            partial.board,
            table_view(table@),
            table@.len() as int,
        ),
{
    let mut out: Vec<Arrangement> = Vec::new();
    search(copied(&partial.pieces), partial.board, table, table.len(), &mut out);
    proof {
        assert(views(out@) =~= views(Seq::<Arrangement>::empty()) + completions(
            partial.pieces@,
            partial.board,
            table_view(table@),
            table@.len() as int,
        ));
    }
    out
}

/// Relies on rayon's `par_iter().map(..).collect_into_vec(..)` over a slice:
/// the closure runs once on each item, and the results come back in the
/// order of the items.
#[verifier::external_body]
fn complete_all(partials: &Vec<Arrangement>, table: &Vec<Vec<Piece>>) -> (r: Vec<Vec<Arrangement>>)
    requires
        table_ok(table_view(table@)),
        forall|i: int|
            0 <= i < partials@.len() ==> (#[trigger] partials@[i]).pieces@.len() <= table@.len()
                && has_room(partials@[i].board),
    ensures
        r@.len() == partials@.len(),
        forall|i: int|
            0 <= i < partials@.len() ==> views((#[trigger] r@[i])@) == completions(
                partials@[i].pieces@,
                partials@[i].board,
                table_view(table@),
                table@.len() as int,
            ),
{
    let mut r = Vec::new();
    partials.par_iter().map(|a| complete(a, table)).collect_into_vec(&mut r);
    r
}

/// Every way to lay one placement of each tile of `table` on `board`, tile by
/// tile, without overlap. The placements of the first tile are found first;
/// the search from each of them then runs on a worker thread of its own. The
/// result is the one a single sequential search finds, in the same order.
pub fn solve_board(board: Piece, table: &Vec<Vec<Piece>>) -> (v: Vec<Arrangement>)
    requires
        1 <= table@.len(),
        table_ok(table_view(table@)),
        has_room(board),
    ensures
        views(v@) == completions(seq![], board, table_view(table@), table@.len() as int),
{
    let ghost t = table_view(table@);
    let ghost n = table@.len() as int;
    let mut partials: Vec<Arrangement> = Vec::new();
    search(Vec::new(), board, table, 1, &mut partials);
    let ghost parts = completions(seq![], board, t, 1);
    proof {
        assert(views(partials@) =~= parts);
        lemma_completions_shape(seq![], board, t, 1);
        assert forall|i: int| 0 <= i < partials@.len() implies (#[trigger] partials@[i]).pieces@.len()
            <= table@.len() && has_room(partials@[i].board) by {
            assert(views(partials@)[i] == parts[i]);
        }
    }
    let mut groups = complete_all(&partials, table);
    let ghost all_groups = groups@;
    let mut out: Vec<Arrangement> = Vec::new();
    let mut i: usize = 0;
    while i < partials.len()
        invariant
            i <= partials@.len(),
            all_groups.len() == partials@.len(),
            groups@ == all_groups.subrange(i as int, all_groups.len() as int),
            views(partials@) == parts,
            forall|j: int|
                0 <= j < partials@.len() ==> views((#[trigger] all_groups[j])@) == completions(
                    parts[j].0,
                    parts[j].1,
                    t,
                    n,
                ),
            views(out@) == resume_all(parts.take(i as int), t, n),
        decreases partials@.len() - i,
    {
        let mut g = groups.remove(0);
        proof {
            assert(views(partials@)[i as int] == parts[i as int]);
            assert(parts.take(i + 1).drop_last() =~= parts.take(i as int));
        }
        let ghost before = out@;
        out.append(&mut g);
        proof {
            assert(views(out@) =~= views(before) + views(all_groups[i as int]@));
        }
        i += 1;
        proof {
            assert(groups@ =~= all_groups.subrange(i as int, all_groups.len() as int));
        }
    }
    proof {
        assert(parts.take(i as int) =~= parts);
        lemma_split_search(seq![], board, t, 1, n);
    }
    out
}

/// The placements of each tile, in tile order.
pub open spec fn tile_placements() -> Seq<Seq<Piece>> {
    Seq::new(TILE_COUNT as nat, |k: int| placements(tile(k)))
}

/// The board left for the tiles once the cells carrying `labels` are filled,
/// one label after another; none when a label names no cell.
pub open spec fn opened_board(labels: Seq<Seq<char>>) -> Option<Piece>
    decreases labels.len(),
{
    if labels.len() == 0 {
        Some(starting_grid())
    } else {
        match opened_board(labels.drop_last()) {
            Some(b) => marked(b, labels.last()),
            None => None,
        }
    }
}

/// Each tile covers the top row's third cell, and no cell twice.
pub proof fn lemma_tiles(k: int)
    requires
        0 <= k < TILE_COUNT,
    ensures
        !is_empty(tile(k)),
        flat(tile(k)),
{
    let f = |r: int, c: int|
        if tile_covers(k, r, c) {
            1u8
        } else {
            0u8
        };
    assert(tile(k) == grid_of(f));
    lemma_grid_of(f);
    assert(in_grid(0, 2));
}

/// Every placement of a flat tile is flat.
pub proof fn lemma_placements_flat(p: Piece)
    requires
        flat(p),
    ensures
        forall|i: int| 0 <= i < placements(p).len() ==> #[trigger] flat(placements(p)[i]),
{
    let os = orientations(p);
    let parts = os.map_values(|o: Piece| shifts(o));
    lemma_orientations_keep(p);
    assert forall|i: int| 0 <= i < placements(p).len() implies #[trigger] flat(placements(p)[i]) by {
        let (k, j) = lemma_concat_index(parts, i);
        assert(os.contains(os[k]));
        crate::piece::lemma_transforms_keep(os[k]);
        let q = crate::piece::shoved(os[k]);
        crate::piece::lemma_transforms_keep(q);
        let n = crate::placement::col_offsets(q);
        assert(parts[k] == shifts(os[k]));
        assert(parts[k][j] == crate::piece::moved(q, j / n, j % n));
    }
}

/// The placements of the eight tiles, in tile order.
pub fn placement_table() -> (t: Vec<Vec<Piece>>)
    ensures
        table_view(t@) == tile_placements(),
        table_ok(table_view(t@)),
{
    let pieces = Piece::playing_pieces();
    let mut t: Vec<Vec<Piece>> = Vec::new();
    let mut k: usize = 0;
    while k < TILE_COUNT
        invariant
            k <= TILE_COUNT,
            pieces@ == seq![tile(0), tile(1), tile(2), tile(3), tile(4), tile(5), tile(6), tile(7)],
            table_view(t@) == tile_placements().take(k as int),
            table_ok(table_view(t@)),
        decreases TILE_COUNT - k,
    {
        proof {
            lemma_tiles(k as int);
            lemma_placements_flat(tile(k as int));
        }
        let v = get_placements(&pieces[k]);
        let ghost before = t@;
        t.push(v);
        k += 1;
        proof {
            assert(table_view(t@) =~= table_view(before).push(v@));
            assert(table_view(t@) =~= tile_placements().take(k as int));
        }
    }
    proof {
        assert(tile_placements().take(8) =~= tile_placements());
    }
    t
}

/// The board left for the tiles once the cells carrying `labels` are filled.
/// The first label that names no cell is refused.
pub fn open_board(labels: &Vec<&str>) -> (r: Result<Piece, UnknownLabel>)
    ensures
        match r {
            Ok(b) => opened_board(labels@.map_values(|s: &str| s@)) == Some(b),
            Err(_) => opened_board(labels@.map_values(|s: &str| s@)) is None,
        },
{
    let ghost names = labels@.map_values(|s: &str| s@);
    let mut board = Piece::starting_board();
    let mut i: usize = 0;
    while i < labels.len()
        invariant
            i <= labels@.len(),
            names == labels@.map_values(|s: &str| s@),
            opened_board(names.take(i as int)) == Some(board),
        decreases labels@.len() - i,
    {
        proof {
            assert(names.take(i + 1).drop_last() =~= names.take(i as int));
        }
        match board.mark_coord_for(labels[i]) {
            Ok(()) => {},
            Err(e) => {
                proof {
                    lemma_none_stays(names, i + 1);
                }
                return Err(e);
            },
        }
        i += 1;
    }
    proof {
        assert(names.take(i as int) =~= names);
    }
    Ok(board)
}

/// Once a label is refused, no longer list of labels opens a board either.
proof fn lemma_none_stays(names: Seq<Seq<char>>, n: int)
    requires
        0 < n <= names.len(),
        opened_board(names.take(n)) is None,
    ensures
        opened_board(names) is None,
    decreases names.len() - n,
{
    if n < names.len() {
        assert(names.take(n + 1).drop_last() =~= names.take(n));
        lemma_none_stays(names, n + 1);
    } else {
        assert(names.take(n) =~= names);
    }
}

/// Filling labelled cells keeps the board flat.
proof fn lemma_opened_flat(labels: Seq<Seq<char>>)
    ensures
        opened_board(labels) matches Some(b) ==> flat(b),
    decreases labels.len(),
{
    if labels.len() == 0 {
        let f = |r: int, c: int|
            if crate::board::blocked(r, c) {
                1u8
            } else {
                0u8
            };
        assert(starting_grid() == grid_of(f));
        lemma_grid_of(f);
    } else {
        lemma_opened_flat(labels.drop_last());
        if let Some(b) = opened_board(labels.drop_last()) {
            let n = crate::board::first_labelled(labels.last(), 0);
            lemma_with_cell(b, n / 7, n % 7, 1);
        }
    }
}

/// Every solution of the puzzle with the cells carrying `labels` left open:
/// the board is the starting board with those cells filled, and each solution
/// lays one placement of each of the eight tiles on it without overlap. A
/// label that names no cell is refused before any search starts.
pub fn solve(labels: &Vec<&str>) -> (r: Result<Vec<Arrangement>, UnknownLabel>)
    ensures
        match r {
            Ok(v) => opened_board(labels@.map_values(|s: &str| s@)) matches Some(b) && views(v@)
                == completions(seq![], b, tile_placements(), TILE_COUNT as int),
            Err(_) => opened_board(labels@.map_values(|s: &str| s@)) is None,
        },
{
    let board = match open_board(labels) {
        Ok(b) => b,
        Err(e) => return Err(e),
    };
    proof {
        lemma_opened_flat(labels@.map_values(|s: &str| s@));
    }
    let table = placement_table();
    assert(table_view(table@).len() == table@.len());
    Ok(solve_board(board, &table))
}

/// `board` with the placements `ps` overlaid one after another.
pub open spec fn layered(board: Piece, ps: Seq<Piece>) -> Piece
    decreases ps.len(),
{
    if ps.len() == 0 {
        board
    } else {
        overlaid(layered(board, ps.drop_last()), ps.last())
    }
}

/// Whether `ps` picks, for each tile from tile `from` on, one of that tile's
/// candidates, and laying them on `board` one after another never overlaps.
pub open spec fn valid_extension(board: Piece, t: Seq<Seq<Piece>>, from: int, ps: Seq<Piece>) -> bool {
    &&& forall|j: int| 0 <= j < ps.len() ==> #[trigger] t[from + j].contains(ps[j])
    &&& forall|j: int| 1 <= j <= ps.len() ==> #[trigger] flat(layered(board, ps.take(j)))
}

proof fn lemma_layered_front(board: Piece, p: Piece, ps: Seq<Piece>)
    ensures
        layered(board, seq![p] + ps) == layered(overlaid(board, p), ps),
    decreases ps.len(),
{
    let all = seq![p] + ps;
    if ps.len() == 0 {
        assert(all.drop_last() =~= Seq::<Piece>::empty());
        assert(layered(board, all.drop_last()) == board);
        assert(all.last() == p);
    } else {
        assert(all.drop_last() =~= seq![p] + ps.drop_last());
        assert(all.last() == ps.last());
        lemma_layered_front(board, p, ps.drop_last());
    }
}

/// A valid extension that starts with `p` is `p` laid without overlap,
/// followed by a valid extension of the board with `p` on it.
proof fn lemma_valid_front(board: Piece, t: Seq<Seq<Piece>>, from: int, p: Piece, ps: Seq<Piece>)
    ensures
        valid_extension(board, t, from, seq![p] + ps) <==> t[from].contains(p) && fits(board, p)
            && valid_extension(overlaid(board, p), t, from + 1, ps),
{
    let all = seq![p] + ps;
    let nb = overlaid(board, p);
    assert(all[0] == p);
    assert forall|j: int| 0 <= j <= ps.len() implies layered(board, #[trigger] all.take(j + 1))
        == layered(nb, ps.take(j)) by {
        assert(all.take(j + 1) =~= seq![p] + ps.take(j));
        lemma_layered_front(board, p, ps.take(j));
    }
    assert(all.take(1) =~= seq![p] + ps.take(0));
    assert(ps.take(0) =~= Seq::<Piece>::empty());
    if valid_extension(board, t, from, all) {
        assert(t[from + 0].contains(all[0]));
        assert(flat(layered(board, all.take(1))));
        assert forall|j: int| 0 <= j < ps.len() implies #[trigger] t[from + 1 + j].contains(ps[j]) by {
            assert(t[from + (j + 1)].contains(all[j + 1]));
        }
        assert forall|j: int| 1 <= j <= ps.len() implies #[trigger] flat(layered(nb, ps.take(j))) by {
            assert(flat(layered(board, all.take(j + 1))));
        }
    }
    if t[from].contains(p) && fits(board, p) && valid_extension(nb, t, from + 1, ps) {
        assert forall|j: int| 0 <= j < all.len() implies #[trigger] t[from + j].contains(all[j]) by {
            if j > 0 {
                assert(t[from + 1 + (j - 1)].contains(ps[j - 1]));
            }
        }
        assert forall|j: int| 1 <= j <= all.len() implies #[trigger] flat(layered(board, all.take(j))) by {
            if j > 1 {
                assert(flat(layered(nb, ps.take(j - 1))));
            }
            assert(layered(board, all.take((j - 1) + 1)) == layered(nb, ps.take(j - 1)));
        }
    }
}

/// Every arrangement the search finds extends `placed` with one candidate of
/// each further tile, laid on `board` one after another without overlap, and
/// its board is `board` with those placements overlaid.
pub proof fn lemma_search_sound(placed: Seq<Piece>, board: Piece, t: Seq<Seq<Piece>>, stop: int)
    requires
        placed.len() <= stop,
    ensures
        forall|i: int|
            0 <= i < completions(placed, board, t, stop).len() ==> {
                let x = #[trigger] completions(placed, board, t, stop)[i];
                let ps = x.0.subrange(placed.len() as int, stop);
                &&& x.0.len() == stop
                &&& x.0.subrange(0, placed.len() as int) == placed
                &&& valid_extension(board, t, placed.len() as int, ps)
                &&& x.1 == layered(board, ps)
            },
    decreases stop - placed.len(), 1int, 0int,
{
    let k = placed.len() as int;
    if k < stop {
        let n = t[k].len() as int;
        assert(completions(placed, board, t, stop) == branches(placed, board, t, stop, n));
        lemma_branches_sound(placed, board, t, stop, n);
    } else {
        assert(completions(placed, board, t, stop) == seq![(placed, board)]);
        let x = completions(placed, board, t, stop)[0];
        assert(x.0.subrange(k, stop) =~= Seq::<Piece>::empty());
        assert(x.0.subrange(0, k) =~= placed);
    }
}

proof fn lemma_branches_sound(
    placed: Seq<Piece>,
    board: Piece,
    t: Seq<Seq<Piece>>,
    stop: int,
    n: int,
)
    requires
        placed.len() < stop,
        n <= t[placed.len() as int].len(),
    ensures
        forall|i: int|
            0 <= i < branches(placed, board, t, stop, n).len() ==> {
                let x = #[trigger] branches(placed, board, t, stop, n)[i];
                let ps = x.0.subrange(placed.len() as int, stop);
                &&& x.0.len() == stop
                &&& x.0.subrange(0, placed.len() as int) == placed
                &&& valid_extension(board, t, placed.len() as int, ps)
                &&& x.1 == layered(board, ps)
            },
    decreases stop - placed.len(), 0int, n,
{
    let k = placed.len() as int;
    if n > 0 {
        let p = t[k][n - 1];
        lemma_branches_sound(placed, board, t, stop, n - 1);
        let head = branches(placed, board, t, stop, n - 1);
        if fits(board, p) {
            let nb = overlaid(board, p);
            let longer = placed.push(p);
            lemma_search_sound(longer, nb, t, stop);
            let rest = completions(longer, nb, t, stop);
            assert forall|i: int| 0 <= i < (head + rest).len() implies {
                let x = #[trigger] (head + rest)[i];
                let ps = x.0.subrange(k, stop);
                &&& x.0.len() == stop
                &&& x.0.subrange(0, k) == placed
                &&& valid_extension(board, t, k, ps)
                &&& x.1 == layered(board, ps)
            } by {
                if i >= head.len() {
                    let x = rest[i - head.len()];
                    assert((head + rest)[i] == x);
                    let ps1 = x.0.subrange(k + 1, stop);
                    assert(x.0.subrange(0, k + 1) == longer);
                    assert(longer[k] == p);
                    assert(x.0.subrange(0, k + 1)[k] == x.0[k]);
                    assert(x.0.subrange(0, k) =~= placed);
                    assert(x.0[k] == p);
                    assert(x.0.subrange(k, stop) =~= seq![p] + ps1);
                    assert(t[k].contains(p));
                    lemma_valid_front(board, t, k, p, ps1);
                    lemma_layered_front(board, p, ps1);
                }
            }
        } else {
            assert(head + seq![] =~= head);
        }
    }
}

/// Every way to extend `placed` with one candidate of each further tile, laid
/// on `board` one after another without overlap, is found by the search.
pub proof fn lemma_search_complete(
    placed: Seq<Piece>,
    board: Piece,
    t: Seq<Seq<Piece>>,
    stop: int,
    ps: Seq<Piece>,
)
    requires
        placed.len() <= stop,
        ps.len() == stop - placed.len(),
        valid_extension(board, t, placed.len() as int, ps),
    ensures
        completions(placed, board, t, stop).contains((placed + ps, layered(board, ps))),
    decreases stop - placed.len(), 1int, 0int,
{
    let k = placed.len() as int;
    if k >= stop {
        assert(ps =~= Seq::<Piece>::empty());
        assert(placed + ps =~= placed);
        assert(completions(placed, board, t, stop) == seq![(placed, board)]);
        assert(completions(placed, board, t, stop)[0] == (placed + ps, layered(board, ps)));
    } else {
        let p = ps[0];
        let rest = ps.drop_first();
        assert(ps =~= seq![p] + rest);
        lemma_valid_front(board, t, k, p, rest);
        let m = choose|m: int| 0 <= m < t[k].len() && t[k][m] == p;
        let n = t[k].len() as int;
        assert(completions(placed, board, t, stop) == branches(placed, board, t, stop, n));
        lemma_branches_complete(placed, board, t, stop, n, m, rest);
        assert(placed.push(p) + rest =~= placed + ps);
        lemma_layered_front(board, p, rest);
    }
}

proof fn lemma_branches_complete(
    placed: Seq<Piece>,
    board: Piece,
    t: Seq<Seq<Piece>>,
    stop: int,
    n: int,
    m: int,
    rest: Seq<Piece>,
)
    requires
        placed.len() < stop,
        0 <= m < n <= t[placed.len() as int].len(),
        fits(board, t[placed.len() as int][m]),
        rest.len() == stop - placed.len() - 1,
        valid_extension(
            overlaid(board, t[placed.len() as int][m]),
            t,
            placed.len() as int + 1,
            rest,
        ),
    ensures
        ({
            let p = t[placed.len() as int][m];
            branches(placed, board, t, stop, n).contains(
                (placed.push(p) + rest, layered(overlaid(board, p), rest)),
            )
        }),
    decreases stop - placed.len(), 0int, n,
{
    let k = placed.len() as int;
    let p = t[k][m];
    let target = (placed.push(p) + rest, layered(overlaid(board, p), rest));
    let head = branches(placed, board, t, stop, n - 1);
    let q = t[k][n - 1];
    let tail = if fits(board, q) {
        completions(placed.push(q), overlaid(board, q), t, stop)
    } else {
        seq![]
    };
    assert(branches(placed, board, t, stop, n) == head + tail);
    if m < n - 1 {
        lemma_branches_complete(placed, board, t, stop, n - 1, m, rest);
        let i = choose|i: int| 0 <= i < head.len() && head[i] == target;
        assert((head + tail)[i] == target);
    } else {
        lemma_search_complete(placed.push(p), overlaid(board, p), t, stop, rest);
        let i = choose|i: int| 0 <= i < tail.len() && tail[i] == target;
        assert((head + tail)[head.len() + i] == target);
    }
}

} // verus!
