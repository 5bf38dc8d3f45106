//! What is reported of a solution: an identifier that does not depend on the
//! order of its placements, and what each cell shows when it is drawn.
use crate::board::{blocked, digit_char};
use crate::piece::{code, in_grid, Piece, PIECE_SIZE};
use vstd::prelude::*;
use vstd::relations::{sorted_by, total_ordering};
use vstd::seq_lib::{
    lemma_sorted_unique, to_multiset_build, to_multiset_insert, to_multiset_len, to_multiset_remove,
};

verus! {

/// The lower-case hexadecimal digit for `d` (below 16).
pub open spec fn hex_digit(d: int) -> char {
    if d < 10 {
        digit_char(d)
    } else if d == 10 {
        'a'
    } else if d == 11 {
        'b'
    } else if d == 12 {
        'c'
    } else if d == 13 {
        'd'
    } else if d == 14 {
        'e'
    } else {
        'f'
    }
}

/// `n` in lower-case hexadecimal, without prefix or leading zeros.
pub open spec fn hex_text(n: nat) -> Seq<char>
    decreases n,
{
    if n < 16 {
        seq![hex_digit(n as int)]
    } else {
        hex_text(n / 16).push(hex_digit((n % 16) as int))
    }
}

/// The parts one after another, with a dash between neighbours.
pub open spec fn dash_join(parts: Seq<Seq<char>>) -> Seq<char>
    decreases parts.len(),
{
    if parts.len() == 0 {
        seq![]
    } else if parts.len() == 1 {
        parts[0]
    } else {
        dash_join(parts.drop_last()) + seq!['-'] + parts.last()
    }
}

/// The order in which codes are listed: largest first.
pub open spec fn larger_first(a: u64, b: u64) -> bool {
    a >= b
}

/// The codes of the placements.
pub open spec fn codes_of(pieces: Seq<Piece>) -> Seq<u64> {
    pieces.map_values(|p: Piece| code(p) as u64)
}

/// The identifier of a set of placements: their codes in hexadecimal, largest
/// first, joined by dashes.
pub open spec fn solution_id(pieces: Seq<Piece>) -> Seq<char> {
    dash_join(
        codes_of(pieces).sort_by(|a: u64, b: u64| larger_first(a, b)).map_values(
            |c: u64| hex_text(c as nat),
        ),
    )
}

/// Relies on std's `LowerHex` formatting of `u64` through `format!("{:x}")`:
/// lower-case digits, no prefix, no leading zeros.
#[verifier::external_body]
fn lower_hex(v: u64) -> (s: String)
    ensures
        s@ == hex_text(v as nat),
{
    format!("{:x}", v)
}

/// `codes` in order, largest first.
fn sorted_codes(codes: &Vec<u64>) -> (v: Vec<u64>)
    ensures
        v@ == codes@.sort_by(|a: u64, b: u64| larger_first(a, b)),
{
    let ghost leq = |a: u64, b: u64| larger_first(a, b);
    let mut out: Vec<u64> = Vec::new();
    let mut i: usize = 0;
    proof {
        assert(out@ =~= codes@.take(0));
    }
    while i < codes.len()
        invariant
            i <= codes@.len(),
            leq == (|a: u64, b: u64| larger_first(a, b)),
            sorted_by(out@, leq),
            out@.to_multiset() == codes@.take(i as int).to_multiset(),
        decreases codes@.len() - i,
    {
        let x = codes[i];
        let mut pos: usize = 0;
        while pos < out.len() && out[pos] >= x
            invariant
                pos <= out@.len(),
                forall|k: int| 0 <= k < pos ==> out@[k] >= x,
            decreases out@.len() - pos,
        {
            pos += 1;
        }
        let ghost before = out@;
        out.insert(pos, x);
        proof {
            assert forall|a: int, b: int| 0 <= a < b < out@.len() implies #[trigger] leq(
                out@[a],
                out@[b],
            ) by {
                if b < pos {
                    assert(leq(before[a], before[b]));
                } else if a < pos && b == pos {
                } else if a < pos {
                    assert(leq(before[a], before[b - 1]));
                } else if a == pos {
                    assert(leq(before[pos as int], before[b - 1]));
                } else {
                    assert(leq(before[a - 1], before[b - 1]));
                }
            }
            assert(codes@.take(i + 1) =~= codes@.take(i as int).push(x));
            to_multiset_insert(before, pos as int, x);
            to_multiset_build(codes@.take(i as int), x);
        }
        i += 1;
    }
    proof {
        assert(codes@.take(i as int) =~= codes@);
        assert(total_ordering(leq));
        codes@.lemma_sort_by_ensures(leq);
        lemma_sorted_unique(out@, codes@.sort_by(leq), leq);
    }
    out
}

/// An identifier of a solution that does not depend on the order of its
/// placements: the placements' codes in hexadecimal, largest first, joined by
/// dashes.
pub fn encode_solution(pieces: &Vec<Piece>) -> (s: String)
    ensures
        s@ == solution_id(pieces@),
{
    let mut codes: Vec<u64> = Vec::new();
    let mut i: usize = 0;
    while i < pieces.len()
        invariant
            i <= pieces@.len(),
            codes@ == codes_of(pieces@).take(i as int),
        decreases pieces@.len() - i,
    {
        let c = pieces[i].encode();
        codes.push(c);
        i += 1;
        proof {
            assert(codes@ =~= codes_of(pieces@).take(i as int));
        }
    }
    proof {
        assert(codes@ =~= codes_of(pieces@));
    }
    let sorted = sorted_codes(&codes);
    let ghost parts = sorted@.map_values(|c: u64| hex_text(c as nat));
    let mut s = String::new();
    let mut k: usize = 0;
    proof {
        reveal_strlit("-");
    }
    while k < sorted.len()
        invariant
            k <= sorted@.len(),
            parts == sorted@.map_values(|c: u64| hex_text(c as nat)),
            s@ == dash_join(parts.take(k as int)),
            "-"@ == seq!['-'],
        decreases sorted@.len() - k,
    {
        proof {
            assert(parts.take(k + 1).drop_last() =~= parts.take(k as int));
        }
        if k > 0 {
            s.append("-");
        }
        let h = lower_hex(sorted[k]);
        s.append(h.as_str());
        k += 1;
        proof {
            if k == 1 {
                assert(s@ =~= dash_join(parts.take(k as int)));
            } else {
                assert(s@ =~= dash_join(parts.take(k as int)));
            }
        }
    }
    proof {
        assert(parts.take(k as int) =~= parts);
    }
    s
}

/// Sequences that hold the same items, counted with repeats, still do after
/// mapping each item.
proof fn lemma_map_keeps_multiset(a: Seq<Piece>, b: Seq<Piece>, f: spec_fn(Piece) -> u64)
    requires
        a.to_multiset() == b.to_multiset(),
    ensures
        a.map_values(f).to_multiset() == b.map_values(f).to_multiset(),
    decreases a.len(),
{
    broadcast use vstd::multiset::group_multiset_axioms;

    to_multiset_len(a);
    to_multiset_len(b);
    if a.len() == 0 {
        assert(a.map_values(f) =~= b.map_values(f));
    } else {
        let x = a.last();
        let a1 = a.drop_last();
        assert(a =~= a1.push(x));
        to_multiset_build(a1, x);
        assert(b.to_multiset().contains(x));
        vstd::seq_lib::to_multiset_contains(b, x);
        let i = choose|i: int| 0 <= i < b.len() && b[i] == x;
        let b1 = b.remove(i);
        to_multiset_remove(b, i);
        assert(a1.to_multiset() =~= b1.to_multiset());
        lemma_map_keeps_multiset(a1, b1, f);
        assert(a.map_values(f) =~= a1.map_values(f).push(f(x)));
        to_multiset_build(a1.map_values(f), f(x));
        let bm = b.map_values(f);
        assert(bm.remove(i) =~= b1.map_values(f));
        to_multiset_remove(bm, i);
        assert(bm[i] == f(x));
        vstd::seq_lib::to_multiset_contains(bm, f(x));
        assert(bm.to_multiset() =~= bm.to_multiset().remove(f(x)).insert(f(x)));
    }
}

/// The identifier of a solution does not depend on the order of its
/// placements: two lists holding the same placements, counted with repeats,
/// have the same identifier.
pub proof fn lemma_solution_id_ignores_order(a: Seq<Piece>, b: Seq<Piece>)
    requires
        a.to_multiset() == b.to_multiset(),
    ensures
        solution_id(a) == solution_id(b),
{
    let f = |p: Piece| code(p) as u64;
    let leq = |x: u64, y: u64| larger_first(x, y);
    lemma_map_keeps_multiset(a, b, f);
    assert(codes_of(a) == a.map_values(f));
    assert(codes_of(b) == b.map_values(f));
    codes_of(a).lemma_sort_by_ensures(leq);
    codes_of(b).lemma_sort_by_ensures(leq);
    assert(total_ordering(leq));
    lemma_sorted_unique(codes_of(a).sort_by(leq), codes_of(b).sort_by(leq), leq);
}

/// What one cell of a drawn solution shows.
#[derive(Clone, Copy, Debug, PartialEq, Eq, Structural)]
pub enum Square {
    /// A cell outside the board's shape: drawn as nothing.
    Hidden,
    /// A board cell that no tile covers.
    Open,
    /// A cell covered by the tile with this index.
    Tile(usize),
}

/// The number of tiles drawn: one colour for each of the eight tiles.
pub const DRAWN_TILES: usize = 8;

/// What cell `(r, c)` shows once the first `n` placements are drawn over the
/// empty board, each over the ones before it: a cell holding exactly 1 in a
/// placement shows that placement's tile.
pub open spec fn square_after(pieces: Seq<Piece>, n: int, r: int, c: int) -> Square
    decreases n,
{
    if n <= 0 {
        if blocked(r, c) {
            Square::Hidden
        } else {
            Square::Open
        }
    } else if pieces[n - 1].at(r, c) == 1 {
        Square::Tile((n - 1) as usize)
    } else {
        square_after(pieces, n - 1, r, c)
    }
}

/// How many of `pieces` are drawn.
pub open spec fn drawn(pieces: Seq<Piece>) -> int {
    if pieces.len() < DRAWN_TILES {
        pieces.len() as int
    } else {
        DRAWN_TILES as int
    }
}

/// What each cell shows when the placements of a solution, at most eight of
/// them, are drawn on the board.
pub fn solution_squares(pieces: &Vec<Piece>) -> (g: [[Square; PIECE_SIZE]; PIECE_SIZE])
    ensures
        forall|r: int, c: int|
            in_grid(r, c) ==> #[trigger] g[r][c] == square_after(pieces@, drawn(pieces@), r, c),
{
    let mut g = [[Square::Open; PIECE_SIZE]; PIECE_SIZE];
    let n = if pieces.len() < DRAWN_TILES {
        pieces.len()
    } else {
        DRAWN_TILES
    };
    let mut k: usize = 0;
    while k <= n
        invariant
            n == drawn(pieces@),
            n <= pieces@.len(),
            k <= n + 1,
            forall|r: int, c: int|
                in_grid(r, c) && k > 0 ==> #[trigger] g[r][c] == square_after(
                    pieces@,
                    k - 1,
                    r,
                    c,
                ),
        decreases n + 1 - k,
    {
        let mut r: usize = 0;
        while r < PIECE_SIZE
            invariant
                n == drawn(pieces@),
                n <= pieces@.len(),
                k <= n,
                r <= PIECE_SIZE,
                forall|i: int, c: int|
                    in_grid(i, c) ==> #[trigger] g[i][c] == if i < r {
                        square_after(pieces@, k as int, i, c)
                    } else if k > 0 {
                        square_after(pieces@, k - 1, i, c)
                    } else {
                        g[i][c]
                    },
            decreases PIECE_SIZE - r,
        {
            let mut c: usize = 0;
            while c < PIECE_SIZE
                invariant
                    n == drawn(pieces@),
                    n <= pieces@.len(),
                    k <= n,
                    r < PIECE_SIZE,
                    c <= PIECE_SIZE,
                    forall|i: int, j: int|
                        in_grid(i, j) ==> #[trigger] g[i][j] == if i < r || (i == r && j < c) {
                            square_after(pieces@, k as int, i, j)
                        } else if k > 0 {
                            square_after(pieces@, k - 1, i, j)
                        } else {
                            g[i][j]
                        },
                decreases PIECE_SIZE - c,
            {
                if k == 0 {
                    g[r][c] = if (r < 2 && c == 6) || (r == 6 && c >= 3) {
                        Square::Hidden
                    } else {
                        Square::Open
                    };
                } else if pieces[k - 1].data[r][c] == 1 {
                    g[r][c] = Square::Tile(k - 1);
                }
                c += 1;
            }
            r += 1;
        }
        k += 1;
    }
    g
}

} // verus!
