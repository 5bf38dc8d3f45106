//! The grid type shared by the board and the tiles, with its symmetry operations.
use vstd::arithmetic::div_mod::lemma_fundamental_div_mod_converse;
use vstd::arithmetic::power2::{
    lemma2_to64_rest, lemma_pow2_pos, lemma_pow2_strictly_increases, lemma_pow2_unfold, pow2,
};
use vstd::prelude::*;

verus! {

/// Side length of the square grid that holds the board and every tile.
pub const PIECE_SIZE: usize = 7;

/// A 7x7 grid of small counters. A tile, a single placement of a tile and the
/// board itself all share this shape; a cell holding 0 is empty.
#[derive(Clone, Copy, Debug, Eq, Hash)]
pub struct Piece {
    pub data: [[u8; PIECE_SIZE]; PIECE_SIZE],
}

/// Whether `(r, c)` names a cell of the grid.
pub open spec fn in_grid(r: int, c: int) -> bool {
    0 <= r < 7 && 0 <= c < 7
}

/// One row of the grid whose cells are given by `f`.
pub open spec fn grid_row(f: spec_fn(int, int) -> u8, r: int) -> [u8; PIECE_SIZE] {
    [f(r, 0), f(r, 1), f(r, 2), f(r, 3), f(r, 4), f(r, 5), f(r, 6)]
}

/// The grid whose cell `(r, c)` holds `f(r, c)`.
#[verifier::opaque]
pub open spec fn grid_of(f: spec_fn(int, int) -> u8) -> Piece {
    Piece {
        data: [
            grid_row(f, 0),
            grid_row(f, 1),
            grid_row(f, 2),
            grid_row(f, 3),
            grid_row(f, 4),
            grid_row(f, 5),
            grid_row(f, 6),
        ],
    }
}

impl Piece {
    /// The value of cell `(r, c)`.
    pub open spec fn at(self, r: int, c: int) -> u8 {
        self.data[r][c]
    }
}

/// Each cell of `grid_of(f)` holds what `f` gives for it.
pub proof fn lemma_grid_of(f: spec_fn(int, int) -> u8)
    ensures
        forall|r: int, c: int| #[trigger] in_grid(r, c) ==> grid_of(f).at(r, c) == f(r, c),
{
    reveal(grid_of);
    assert forall|r: int, c: int| #[trigger] in_grid(r, c) implies grid_of(f).at(r, c) == f(r, c) by {
        assert(r == 0 || r == 1 || r == 2 || r == 3 || r == 4 || r == 5 || r == 6);
        assert(c == 0 || c == 1 || c == 2 || c == 3 || c == 4 || c == 5 || c == 6);
    }
}

/// Two grids that agree on every cell are the same grid.
pub proof fn lemma_same_cells(p: Piece, q: Piece)
    requires
        forall|r: int, c: int| in_grid(r, c) ==> p.at(r, c) == q.at(r, c),
    ensures
        p == q,
{
    assert forall|r: int| 0 <= r < 7 implies p.data[r] == q.data[r] by {
        assert forall|c: int| 0 <= c < 7 implies p.data[r][c] == q.data[r][c] by {
            assert(in_grid(r, c));
        }
        assert(p.data[r] =~= q.data[r]);
    }
    assert(p.data =~= q.data);
}

impl PartialEq for Piece {
    fn eq(&self, o: &Piece) -> (r: bool) {
        let mut i: usize = 0;
        while i < PIECE_SIZE
            invariant
                i <= PIECE_SIZE,
                forall|a: int, b: int| 0 <= a < i && 0 <= b < 7 ==> self.at(a, b) == o.at(a, b),
            decreases PIECE_SIZE - i,
        {
            let mut j: usize = 0;
            while j < PIECE_SIZE
                invariant
                    i < PIECE_SIZE,
                    j <= PIECE_SIZE,
                    forall|a: int, b: int| 0 <= a < i && 0 <= b < 7 ==> self.at(a, b) == o.at(a, b),
                    forall|b: int| 0 <= b < j ==> self.at(i as int, b) == o.at(i as int, b),
                decreases PIECE_SIZE - j,
            {
                if self.data[i][j] != o.data[i][j] {
                    return false;
                }
                j += 1;
            }
            i += 1;
        }
        proof {
            lemma_same_cells(*self, *o);
        }
        true
    }
}

impl vstd::std_specs::cmp::PartialEqSpecImpl for Piece {
    open spec fn obeys_eq_spec() -> bool {
        true
    }

    open spec fn eq_spec(&self, o: &Piece) -> bool {
        *self == *o
    }
}

impl From<[[u8; PIECE_SIZE]; PIECE_SIZE]> for Piece {
    fn from(data: [[u8; PIECE_SIZE]; PIECE_SIZE]) -> (r: Piece) {
        Piece { data }
    }
}

impl vstd::std_specs::convert::FromSpecImpl<[[u8; PIECE_SIZE]; PIECE_SIZE]> for Piece {
    open spec fn obeys_from_spec() -> bool {
        true
    }

    open spec fn from_spec(data: [[u8; PIECE_SIZE]; PIECE_SIZE]) -> Piece {
        Piece { data }
    }
}

/// The grid with rows and columns swapped.
pub open spec fn transposed(p: Piece) -> Piece {
    grid_of(|r: int, c: int| p.at(c, r))
}

/// The grid with its row order reversed.
pub open spec fn flipped(p: Piece) -> Piece {
    grid_of(|r: int, c: int| p.at(6 - r, c))
}

/// The grid turned a quarter turn: flipped, then transposed.
pub open spec fn rotated(p: Piece) -> Piece {
    transposed(flipped(p))
}

/// Every row moved up by one, the top row coming round to the bottom.
pub open spec fn rolled_up(p: Piece) -> Piece {
    grid_of(|r: int, c: int| p.at((r + 1) % 7, c))
}

/// Every row moved down by one, the bottom row coming round to the top.
pub open spec fn rolled_down(p: Piece) -> Piece {
    grid_of(|r: int, c: int| p.at((r + 6) % 7, c))
}

/// Every column moved left by one, the left column coming round to the right.
pub open spec fn rolled_left(p: Piece) -> Piece {
    grid_of(|r: int, c: int| p.at(r, (c + 1) % 7))
}

/// Every column moved right by one, the right column coming round to the left.
pub open spec fn rolled_right(p: Piece) -> Piece {
    grid_of(|r: int, c: int| p.at(r, (c + 6) % 7))
}

impl Piece {
    /// Row `idx` of the grid.
    pub fn row(&self, idx: usize) -> (r: [u8; PIECE_SIZE])
        requires
            idx < PIECE_SIZE,
        ensures
            forall|c: int| 0 <= c < 7 ==> r[c] == self.at(idx as int, c),
    {
        self.data[idx]
    }

    /// Column `idx` of the grid, read from top to bottom.
    pub fn col(&self, idx: usize) -> (r: [u8; PIECE_SIZE])
        requires
            idx < PIECE_SIZE,
        ensures
            forall|i: int| 0 <= i < 7 ==> r[i] == self.at(i, idx as int),
    {
        [
            self.data[0][idx],
            self.data[1][idx],
            self.data[2][idx],
            self.data[3][idx],
            self.data[4][idx],
            self.data[5][idx],
            self.data[6][idx],
        ]
    }

    fn transpose(&mut self)
        ensures
            *final(self) == transposed(*old(self)),
    {
        let ghost p = *self;
        self.data = [
            self.col(0),
            self.col(1),
            self.col(2),
            self.col(3),
            self.col(4),
            self.col(5),
            self.col(6),
        ];
        proof {
            let f = |r: int, c: int| p.at(c, r);
            lemma_grid_of(f);
            assert forall|r: int, c: int| in_grid(r, c) implies self.at(r, c) == transposed(p).at(r, c) by {
                assert(in_grid(r, c));
                assert(r == 0 || r == 1 || r == 2 || r == 3 || r == 4 || r == 5 || r == 6);
            }
            lemma_same_cells(*self, transposed(p));
        }
    }
}

impl Piece {
    /// Reverses the order of the rows.
    pub fn flip_updown(&mut self)
        ensures
            *final(self) == flipped(*old(self)),
    {
        let ghost p = *self;
        self.data = [
            self.data[6],
            self.data[5],
            self.data[4],
            self.data[3],
            self.data[2],
            self.data[1],
            self.data[0],
        ];
        proof {
            lemma_rows_moved(p, *self, |r: int| 6 - r);
            lemma_grid_of(|r: int, c: int| p.at(6 - r, c));
            lemma_same_cells(*self, flipped(p));
        }
    }

    /// Turns the grid a quarter turn.
    pub fn rotate90(&mut self)
        ensures
            *final(self) == rotated(*old(self)),
    {
        self.flip_updown();
        self.transpose();
    }

    fn roll_up(&mut self)
        ensures
            *final(self) == rolled_up(*old(self)),
    {
        let ghost p = *self;
        self.data = [
            self.data[1],
            self.data[2],
            self.data[3],
            self.data[4],
            self.data[5],
            self.data[6],
            self.data[0],
        ];
        proof {
            lemma_rows_moved(p, *self, |r: int| (r + 1) % 7);
            lemma_grid_of(|r: int, c: int| p.at((r + 1) % 7, c));
            lemma_same_cells(*self, rolled_up(p));
        }
    }

    /// Moves every row down by one; the bottom row comes round to the top.
    pub fn roll_down(&mut self)
        ensures
            *final(self) == rolled_down(*old(self)),
    {
        let ghost p = *self;
        self.data = [
            self.data[6],
            self.data[0],
            self.data[1],
            self.data[2],
            self.data[3],
            self.data[4],
            self.data[5],
        ];
        proof {
            lemma_rows_moved(p, *self, |r: int| (r + 6) % 7);
            lemma_grid_of(|r: int, c: int| p.at((r + 6) % 7, c));
            lemma_same_cells(*self, rolled_down(p));
        }
    }

    fn roll_left(&mut self)
        ensures
            *final(self) == rolled_left(*old(self)),
    {
        let ghost p = *self;
        self.transpose();
        self.roll_up();
        self.transpose();
        proof {
            let q = transposed(rolled_up(transposed(p)));
            lemma_grid_of(|r: int, c: int| p.at(c, r));
            lemma_grid_of(|r: int, c: int| transposed(p).at((r + 1) % 7, c));
            lemma_grid_of(|r: int, c: int| rolled_up(transposed(p)).at(c, r));
            lemma_grid_of(|r: int, c: int| p.at(r, (c + 1) % 7));
            assert forall|r: int, c: int| in_grid(r, c) implies q.at(r, c) == rolled_left(p).at(r, c) by {
                assert(in_grid(c, r));
                assert(in_grid((c + 1) % 7, r));
            }
            lemma_same_cells(q, rolled_left(p));
        }
    }

    /// Moves every column right by one; the right column comes round to the left.
    pub fn roll_right(&mut self)
        ensures
            *final(self) == rolled_right(*old(self)),
    {
        let ghost p = *self;
        self.transpose();
        self.roll_down();
        self.transpose();
        proof {
            let q = transposed(rolled_down(transposed(p)));
            lemma_grid_of(|r: int, c: int| p.at(c, r));
            lemma_grid_of(|r: int, c: int| transposed(p).at((r + 6) % 7, c));
            lemma_grid_of(|r: int, c: int| rolled_down(transposed(p)).at(c, r));
            lemma_grid_of(|r: int, c: int| p.at(r, (c + 6) % 7));
            assert forall|r: int, c: int| in_grid(r, c) implies q.at(r, c) == rolled_right(p).at(r, c) by {
                assert(in_grid(c, r));
                assert(in_grid((c + 6) % 7, r));
            }
            lemma_same_cells(q, rolled_right(p));
        }
    }
}

/// Each row `r` of `q` is row `src(r)` of `p`, for the seven rows written out.
proof fn lemma_rows_moved(p: Piece, q: Piece, src: spec_fn(int) -> int)
    requires
        q.data[0] == p.data[src(0)],
        q.data[1] == p.data[src(1)],
        q.data[2] == p.data[src(2)],
        q.data[3] == p.data[src(3)],
        q.data[4] == p.data[src(4)],
        q.data[5] == p.data[src(5)],
        q.data[6] == p.data[src(6)],
    ensures
        forall|r: int, c: int| in_grid(r, c) ==> q.at(r, c) == p.at(src(r), c),
{
    assert forall|r: int, c: int| in_grid(r, c) implies q.at(r, c) == p.at(src(r), c) by {
        assert(r == 0 || r == 1 || r == 2 || r == 3 || r == 4 || r == 5 || r == 6);
    }
}

/// Whether row `r` holds a non-empty cell.
pub open spec fn row_filled(p: Piece, r: int) -> bool {
    exists|c: int| 0 <= c < 7 && #[trigger] p.at(r, c) != 0
}

/// Whether column `c` holds a non-empty cell.
pub open spec fn col_filled(p: Piece, c: int) -> bool {
    exists|r: int| 0 <= r < 7 && #[trigger] p.at(r, c) != 0
}

/// The first filled row at `r` or after it; 7 when there is none.
pub open spec fn first_filled_row(p: Piece, r: int) -> int
    decreases 7 - r,
{
    if r >= 7 {
        7
    } else if row_filled(p, r) {
        r
    } else {
        first_filled_row(p, r + 1)
    }
}

/// The first filled column at `c` or after it; 7 when there is none.
pub open spec fn first_filled_col(p: Piece, c: int) -> int
    decreases 7 - c,
{
    if c >= 7 {
        7
    } else if col_filled(p, c) {
        c
    } else {
        first_filled_col(p, c + 1)
    }
}

/// The last filled row at `r` or before it; -1 when there is none.
pub open spec fn last_filled_row(p: Piece, r: int) -> int
    decreases r + 1,
{
    if r < 0 {
        -1
    } else if row_filled(p, r) {
        r
    } else {
        last_filled_row(p, r - 1)
    }
}

/// The last filled column at `c` or before it; -1 when there is none.
pub open spec fn last_filled_col(p: Piece, c: int) -> int
    decreases c + 1,
{
    if c < 0 {
        -1
    } else if col_filled(p, c) {
        c
    } else {
        last_filled_col(p, c - 1)
    }
}

/// Top row of the bounding box (7 for an empty grid).
pub open spec fn top_row(p: Piece) -> int {
    first_filled_row(p, 0)
}

/// Left column of the bounding box (7 for an empty grid).
pub open spec fn left_col(p: Piece) -> int {
    first_filled_col(p, 0)
}

/// Bottom row of the bounding box (-1 for an empty grid).
pub open spec fn bottom_row(p: Piece) -> int {
    last_filled_row(p, 6)
}

/// Right column of the bounding box (-1 for an empty grid).
pub open spec fn right_col(p: Piece) -> int {
    last_filled_col(p, 6)
}

/// Whether no cell is filled.
pub open spec fn is_empty(p: Piece) -> bool {
    forall|r: int, c: int| in_grid(r, c) ==> p.at(r, c) == 0
}

/// `p` moved down by `dr` rows and right by `dc` columns, without wrapping:
/// what leaves the grid is lost, and the cells left behind are empty.
pub open spec fn moved(p: Piece, dr: int, dc: int) -> Piece {
    grid_of(
        |r: int, c: int|
            if in_grid(r - dr, c - dc) {
                p.at(r - dr, c - dc)
            } else {
                0u8
            },
    )
}

/// `p` moved up and left until its bounding box touches the top-left corner.
pub open spec fn shoved(p: Piece) -> Piece {
    moved(p, -top_row(p), -left_col(p))
}

/// The cells of a moved grid.
pub proof fn lemma_moved(p: Piece, dr: int, dc: int)
    ensures
        forall|r: int, c: int|
            #![trigger moved(p, dr, dc).at(r, c)]
            in_grid(r, c) ==> moved(p, dr, dc).at(r, c) == if in_grid(r - dr, c - dc) {
                p.at(r - dr, c - dc)
            } else {
                0u8
            },
{
    lemma_grid_of(
        |r: int, c: int|
            if in_grid(r - dr, c - dc) {
                p.at(r - dr, c - dc)
            } else {
                0u8
            },
    );
}

proof fn lemma_first_filled_row(p: Piece, r: int)
    requires
        0 <= r <= 7,
    ensures
        r <= first_filled_row(p, r) <= 7,
        forall|x: int| r <= x < first_filled_row(p, r) ==> !row_filled(p, x),
        first_filled_row(p, r) < 7 ==> row_filled(p, first_filled_row(p, r)),
    decreases 7 - r,
{
    if r < 7 && !row_filled(p, r) {
        lemma_first_filled_row(p, r + 1);
    }
}

proof fn lemma_first_filled_col(p: Piece, c: int)
    requires
        0 <= c <= 7,
    ensures
        c <= first_filled_col(p, c) <= 7,
        forall|x: int| c <= x < first_filled_col(p, c) ==> !col_filled(p, x),
        first_filled_col(p, c) < 7 ==> col_filled(p, first_filled_col(p, c)),
    decreases 7 - c,
{
    if c < 7 && !col_filled(p, c) {
        lemma_first_filled_col(p, c + 1);
    }
}

proof fn lemma_last_filled_row(p: Piece, r: int)
    requires
        -1 <= r < 7,
    ensures
        -1 <= last_filled_row(p, r) <= r,
        forall|x: int| last_filled_row(p, r) < x <= r ==> !row_filled(p, x),
        last_filled_row(p, r) >= 0 ==> row_filled(p, last_filled_row(p, r)),
    decreases r + 1,
{
    if r >= 0 && !row_filled(p, r) {
        lemma_last_filled_row(p, r - 1);
    }
}

proof fn lemma_last_filled_col(p: Piece, c: int)
    requires
        -1 <= c < 7,
    ensures
        -1 <= last_filled_col(p, c) <= c,
        forall|x: int| last_filled_col(p, c) < x <= c ==> !col_filled(p, x),
        last_filled_col(p, c) >= 0 ==> col_filled(p, last_filled_col(p, c)),
    decreases c + 1,
{
    if c >= 0 && !col_filled(p, c) {
        lemma_last_filled_col(p, c - 1);
    }
}

/// The bounding box: every filled cell lies inside it, and each of its four
/// sides touches a filled cell.
pub proof fn lemma_bounding_box(p: Piece)
    ensures
        0 <= top_row(p) <= 7,
        0 <= left_col(p) <= 7,
        -1 <= bottom_row(p) < 7,
        -1 <= right_col(p) < 7,
        is_empty(p) <==> top_row(p) == 7,
        is_empty(p) <==> left_col(p) == 7,
        is_empty(p) <==> bottom_row(p) == -1,
        is_empty(p) <==> right_col(p) == -1,
        !is_empty(p) ==> row_filled(p, top_row(p)) && row_filled(p, bottom_row(p)),
        !is_empty(p) ==> col_filled(p, left_col(p)) && col_filled(p, right_col(p)),
        forall|r: int, c: int|
            #![trigger p.at(r, c)]
            in_grid(r, c) && p.at(r, c) != 0 ==> top_row(p) <= r <= bottom_row(p) && left_col(p)
                <= c <= right_col(p),
{
    lemma_first_filled_row(p, 0);
    lemma_first_filled_col(p, 0);
    lemma_last_filled_row(p, 6);
    lemma_last_filled_col(p, 6);
    assert forall|r: int, c: int|
        #![trigger p.at(r, c)]
        in_grid(r, c) && p.at(r, c) != 0 implies top_row(p) <= r <= bottom_row(p) && left_col(p)
            <= c <= right_col(p) by {
        assert(row_filled(p, r));
        assert(col_filled(p, c));
    }
    if !is_empty(p) {
        let (r, c) = choose|r: int, c: int| in_grid(r, c) && p.at(r, c) != 0;
        assert(row_filled(p, r));
        assert(col_filled(p, c));
    }
    if top_row(p) < 7 {
        let c = choose|c: int| 0 <= c < 7 && p.at(top_row(p), c) != 0;
        assert(in_grid(top_row(p), c));
    }
    if bottom_row(p) >= 0 {
        let c = choose|c: int| 0 <= c < 7 && p.at(bottom_row(p), c) != 0;
        assert(in_grid(bottom_row(p), c));
    }
    if left_col(p) < 7 {
        let r = choose|r: int| 0 <= r < 7 && p.at(r, left_col(p)) != 0;
        assert(in_grid(r, left_col(p)));
    }
    if right_col(p) >= 0 {
        let r = choose|r: int| 0 <= r < 7 && p.at(r, right_col(p)) != 0;
        assert(in_grid(r, right_col(p)));
    }
}

/// The first row that holds a filled cell is `k`, or none does and `k` is 7.
pub proof fn lemma_top_row_is(p: Piece, k: int)
    requires
        0 <= k <= 7,
        forall|x: int| 0 <= x < k ==> !row_filled(p, x),
        k < 7 ==> row_filled(p, k),
    ensures
        top_row(p) == k,
{
    lemma_first_filled_row(p, 0);
}

/// The first column that holds a filled cell is `k`, or none does and `k` is 7.
pub proof fn lemma_left_col_is(p: Piece, k: int)
    requires
        0 <= k <= 7,
        forall|x: int| 0 <= x < k ==> !col_filled(p, x),
        k < 7 ==> col_filled(p, k),
    ensures
        left_col(p) == k,
{
    lemma_first_filled_col(p, 0);
}

/// The last row that holds a filled cell is `k`, or none does and `k` is -1.
pub proof fn lemma_bottom_row_is(p: Piece, k: int)
    requires
        -1 <= k < 7,
        forall|x: int| k < x < 7 ==> !row_filled(p, x),
        k >= 0 ==> row_filled(p, k),
    ensures
        bottom_row(p) == k,
{
    lemma_last_filled_row(p, 6);
}

/// The last column that holds a filled cell is `k`, or none does and `k` is -1.
pub proof fn lemma_right_col_is(p: Piece, k: int)
    requires
        -1 <= k < 7,
        forall|x: int| k < x < 7 ==> !col_filled(p, x),
        k >= 0 ==> col_filled(p, k),
    ensures
        right_col(p) == k,
{
    lemma_last_filled_col(p, 6);
}

proof fn lemma_rolled_up_at(p: Piece)
    ensures
        forall|r: int, c: int|
            #![trigger rolled_up(p).at(r, c)]
            in_grid(r, c) ==> rolled_up(p).at(r, c) == if r < 6 {
                p.at(r + 1, c)
            } else {
                p.at(0, c)
            },
{
    lemma_grid_of(|r: int, c: int| p.at((r + 1) % 7, c));
}

proof fn lemma_rolled_left_at(p: Piece)
    ensures
        forall|r: int, c: int|
            #![trigger rolled_left(p).at(r, c)]
            in_grid(r, c) ==> rolled_left(p).at(r, c) == if c < 6 {
                p.at(r, c + 1)
            } else {
                p.at(r, 0)
            },
{
    lemma_grid_of(|r: int, c: int| p.at(r, (c + 1) % 7));
}

/// Moving by nothing leaves a grid as it is.
pub proof fn lemma_moved_zero(p: Piece)
    ensures
        moved(p, 0, 0) == p,
{
    lemma_moved(p, 0, 0);
    lemma_same_cells(moved(p, 0, 0), p);
}

/// Rolling up a grid whose top row is clear moves it up without wrapping.
proof fn lemma_roll_up_moved(p: Piece, k: int)
    requires
        0 <= k < 7,
        forall|x: int| 0 <= x <= k ==> !row_filled(p, x),
    ensures
        rolled_up(moved(p, -k, 0)) == moved(p, -(k + 1), 0),
{
    let q = moved(p, -k, 0);
    lemma_moved(p, -k, 0);
    lemma_moved(p, -(k + 1), 0);
    lemma_rolled_up_at(q);
    assert forall|r: int, c: int| in_grid(r, c) implies rolled_up(q).at(r, c) == moved(
        p,
        -(k + 1),
        0,
    ).at(r, c) by {
        if r == 6 {
            assert(!row_filled(p, k));
            assert(p.at(k, c) == 0);
            assert(in_grid(0, c));
        } else {
            assert(in_grid(r + 1, c));
        }
    }
    lemma_same_cells(rolled_up(q), moved(p, -(k + 1), 0));
}

/// Rolling left a grid whose left column is clear moves it left without wrapping.
proof fn lemma_roll_left_moved(p: Piece, k: int)
    requires
        0 <= k < 7,
        forall|x: int| 0 <= x <= k ==> !col_filled(p, x),
    ensures
        rolled_left(moved(p, 0, -k)) == moved(p, 0, -(k + 1)),
{
    let q = moved(p, 0, -k);
    lemma_moved(p, 0, -k);
    lemma_moved(p, 0, -(k + 1));
    lemma_rolled_left_at(q);
    assert forall|r: int, c: int| in_grid(r, c) implies rolled_left(q).at(r, c) == moved(
        p,
        0,
        -(k + 1),
    ).at(r, c) by {
        if c == 6 {
            assert(!col_filled(p, k));
            assert(p.at(r, k) == 0);
            assert(in_grid(r, 0));
        } else {
            assert(in_grid(r, c + 1));
        }
    }
    lemma_same_cells(rolled_left(q), moved(p, 0, -(k + 1)));
}

/// A move up followed by a move left is the diagonal move.
proof fn lemma_moved_up_then_left(p: Piece, a: int, b: int)
    ensures
        moved(moved(p, a, 0), 0, b) == moved(p, a, b),
{
    lemma_moved(p, a, 0);
    lemma_moved(moved(p, a, 0), 0, b);
    lemma_moved(p, a, b);
    lemma_same_cells(moved(moved(p, a, 0), 0, b), moved(p, a, b));
}

/// Moving a grid up onto its top row keeps every filled cell, so the same
/// columns stay filled.
proof fn lemma_moved_to_top_cols(p: Piece)
    ensures
        forall|c: int| 0 <= c < 7 ==> col_filled(moved(p, -top_row(p), 0), c) == col_filled(p, c),
{
    let t = top_row(p);
    let q = moved(p, -t, 0);
    lemma_bounding_box(p);
    lemma_moved(p, -t, 0);
    assert forall|c: int| 0 <= c < 7 implies col_filled(q, c) == col_filled(p, c) by {
        if col_filled(p, c) {
            let r = choose|r: int| 0 <= r < 7 && p.at(r, c) != 0;
            assert(in_grid(r, c));
            assert(in_grid(r - t, c));
            assert(q.at(r - t, c) != 0);
        }
        if col_filled(q, c) {
            let r = choose|r: int| 0 <= r < 7 && q.at(r, c) != 0;
            assert(in_grid(r, c));
            assert(p.at(r + t, c) != 0);
        }
    }
}

impl Piece {
    /// Whether row `r` holds only empty cells.
    pub(crate) fn row_is_clear(&self, r: usize) -> (b: bool)
        requires
            r < PIECE_SIZE,
        ensures
            b == !row_filled(*self, r as int),
    {
        let mut c: usize = 0;
        while c < PIECE_SIZE
            invariant
                r < PIECE_SIZE,
                c <= PIECE_SIZE,
                forall|x: int| 0 <= x < c ==> self.at(r as int, x) == 0,
            decreases PIECE_SIZE - c,
        {
            if self.data[r][c] != 0 {
                proof {
                    assert(self.at(r as int, c as int) != 0);
                }
                return false;
            }
            c += 1;
        }
        true
    }

    /// Whether column `c` holds only empty cells.
    pub(crate) fn col_is_clear(&self, c: usize) -> (b: bool)
        requires
            c < PIECE_SIZE,
        ensures
            b == !col_filled(*self, c as int),
    {
        let mut r: usize = 0;
        while r < PIECE_SIZE
            invariant
                c < PIECE_SIZE,
                r <= PIECE_SIZE,
                forall|x: int| 0 <= x < r ==> self.at(x, c as int) == 0,
            decreases PIECE_SIZE - r,
        {
            if self.data[r][c] != 0 {
                proof {
                    assert(self.at(r as int, c as int) != 0);
                }
                return false;
            }
            r += 1;
        }
        true
    }

    /// Moves the grid up while its top row is clear, then left while its left
    /// column is clear, so that its bounding box touches the top-left corner.
    pub fn shove_left_up(&mut self)
        ensures
            *final(self) == shoved(*old(self)),
    {
        let ghost p = *self;
        let mut k: usize = 0;
        proof {
            lemma_moved_zero(p);
        }
        while k < PIECE_SIZE && self.row_is_clear(0)
            invariant
                k <= PIECE_SIZE,
                *self == moved(p, -k, 0),
                forall|x: int| 0 <= x < k ==> !row_filled(p, x),
            decreases PIECE_SIZE - k,
        {
            proof {
                lemma_moved(p, -k, 0);
                assert forall|c: int| 0 <= c < 7 implies self.at(0, c) == p.at(k as int, c) by {
                    assert(in_grid(0, c));
                }
                assert(!row_filled(p, k as int));
                lemma_roll_up_moved(p, k as int);
            }
            self.roll_up();
            k += 1;
        }
        proof {
            if k < 7 {
                lemma_moved(p, -k, 0);
                let c = choose|c: int| 0 <= c < 7 && self.at(0, c) != 0;
                assert(in_grid(0, c));
                assert(p.at(k as int, c) != 0);
            }
            lemma_top_row_is(p, k as int);
        }
        let ghost q = *self;
        let mut j: usize = 0;
        proof {
            lemma_moved_zero(q);
        }
        while j < PIECE_SIZE && self.col_is_clear(0)
            invariant
                j <= PIECE_SIZE,
                *self == moved(q, 0, -j),
                forall|x: int| 0 <= x < j ==> !col_filled(q, x),
            decreases PIECE_SIZE - j,
        {
            proof {
                lemma_moved(q, 0, -j);
                assert forall|r: int| 0 <= r < 7 implies self.at(r, 0) == q.at(r, j as int) by {
                    assert(in_grid(r, 0));
                }
                assert(!col_filled(q, j as int));
                lemma_roll_left_moved(q, j as int);
            }
            self.roll_left();
            j += 1;
        }
        proof {
            if j < 7 {
                lemma_moved(q, 0, -j);
                let r = choose|r: int| 0 <= r < 7 && self.at(r, 0) != 0;
                assert(in_grid(r, 0));
                assert(q.at(r, j as int) != 0);
            }
            lemma_left_col_is(q, j as int);
            lemma_moved_to_top_cols(p);
            lemma_left_col_is(p, j as int);
            lemma_moved_up_then_left(p, -k, -j);
        }
    }
}

/// Shoving a grid that is already shoved leaves it as it is.
pub proof fn lemma_shove_idempotent(p: Piece)
    ensures
        shoved(shoved(p)) == shoved(p),
{
    let t = top_row(p);
    let l = left_col(p);
    let q = shoved(p);
    lemma_bounding_box(p);
    lemma_moved(p, -t, -l);
    if is_empty(p) {
        assert(is_empty(q));
        lemma_bounding_box(q);
        lemma_moved(q, -7, -7);
        lemma_same_cells(shoved(q), q);
    } else {
        let c0 = choose|c: int| 0 <= c < 7 && p.at(t, c) != 0;
        assert(in_grid(t, c0));
        assert(in_grid(0, c0 - l));
        assert(q.at(0, c0 - l) != 0);
        lemma_top_row_is(q, 0);
        let r0 = choose|r: int| 0 <= r < 7 && p.at(r, l) != 0;
        assert(in_grid(r0, l));
        assert(in_grid(r0 - t, 0));
        assert(q.at(r0 - t, 0) != 0);
        lemma_left_col_is(q, 0);
        lemma_moved_zero(q);
    }
}

/// Whether no cell holds more than 1: no two layers overlap.
pub open spec fn flat(p: Piece) -> bool {
    forall|r: int, c: int| in_grid(r, c) ==> p.at(r, c) <= 1
}

/// Whether the cell-wise sum of `a` and `b` fits in a cell.
pub open spec fn can_overlay(a: Piece, b: Piece) -> bool {
    forall|r: int, c: int| in_grid(r, c) ==> a.at(r, c) + b.at(r, c) <= 255
}

/// The cell-wise sum of `a` and `b`.
pub open spec fn overlaid(a: Piece, b: Piece) -> Piece {
    grid_of(|r: int, c: int| (a.at(r, c) + b.at(r, c)) as u8)
}

/// 1 for a filled cell, 0 for an empty one; cells numbered row by row.
pub open spec fn cell_bit(p: Piece, n: int) -> nat {
    if p.at(n / 7, n % 7) != 0 {
        1
    } else {
        0
    }
}

/// The first `n` cells, row by row, read as binary digits, most significant first.
pub open spec fn code_prefix(p: Piece, n: int) -> nat
    decreases n,
{
    if n <= 0 {
        0
    } else {
        2 * code_prefix(p, n - 1) + cell_bit(p, n - 1)
    }
}

/// The 49 cells read row by row as a binary number, a filled cell as a 1.
pub open spec fn code(p: Piece) -> nat {
    code_prefix(p, 49)
}

proof fn lemma_code_prefix_bound(p: Piece, n: int)
    requires
        0 <= n,
    ensures
        code_prefix(p, n) < pow2(n as nat),
    decreases n,
{
    lemma_pow2_pos(n as nat);
    if n > 0 {
        lemma_code_prefix_bound(p, n - 1);
        lemma_pow2_unfold(n as nat);
    }
}

impl Piece {
    /// Whether no cell holds more than 1.
    pub fn is_flat(&self) -> (b: bool)
        ensures
            b == flat(*self),
    {
        let mut r: usize = 0;
        while r < PIECE_SIZE
            invariant
                r <= PIECE_SIZE,
                forall|x: int, y: int| 0 <= x < r && 0 <= y < 7 ==> self.at(x, y) <= 1,
            decreases PIECE_SIZE - r,
        {
            let mut c: usize = 0;
            while c < PIECE_SIZE
                invariant
                    r < PIECE_SIZE,
                    c <= PIECE_SIZE,
                    forall|x: int, y: int| 0 <= x < r && 0 <= y < 7 ==> self.at(x, y) <= 1,
                    forall|y: int| 0 <= y < c ==> self.at(r as int, y) <= 1,
                decreases PIECE_SIZE - c,
            {
                if self.data[r][c] > 1 {
                    assert(in_grid(r as int, c as int));
                    return false;
                }
                c += 1;
            }
            r += 1;
        }
        true
    }

    /// The cell-wise sum of two grids.
    pub fn overlay(&self, other: &Piece) -> (r: Piece)
        requires
            can_overlay(*self, *other),
        ensures
            r == overlaid(*self, *other),
            forall|i: int, j: int| in_grid(i, j) ==> r.at(i, j) == self.at(i, j) + other.at(i, j),
    {
        let mut out = *self;
        let mut i: usize = 0;
        while i < PIECE_SIZE
            invariant
                i <= PIECE_SIZE,
                can_overlay(*self, *other),
                forall|x: int, y: int|
                    in_grid(x, y) ==> out.at(x, y) == if x < i {
                        self.at(x, y) + other.at(x, y)
                    } else {
                        self.at(x, y) as int
                    },
            decreases PIECE_SIZE - i,
        {
            let mut j: usize = 0;
            while j < PIECE_SIZE
                invariant
                    i < PIECE_SIZE,
                    j <= PIECE_SIZE,
                    can_overlay(*self, *other),
                    forall|x: int, y: int|
                        in_grid(x, y) ==> out.at(x, y) == if x < i || (x == i && y < j) {
                            self.at(x, y) + other.at(x, y)
                        } else {
                            self.at(x, y) as int
                        },
                decreases PIECE_SIZE - j,
            {
                assert(in_grid(i as int, j as int));
                out.data[i][j] = self.data[i][j] + other.data[i][j];
                j += 1;
            }
            i += 1;
        }
        proof {
            lemma_grid_of(|r: int, c: int| (self.at(r, c) + other.at(r, c)) as u8);
            lemma_same_cells(out, overlaid(*self, *other));
        }
        out
    }

    /// The grid read row by row as a 49-bit number, a filled cell as a 1
    /// and the first cell as the most significant bit.
    pub fn encode(&self) -> (v: u64)
        ensures
            v == code(*self),
    {
        let mut val: u64 = 0;
        let mut r: usize = 0;
        proof {
            lemma2_to64_rest();
        }
        while r < PIECE_SIZE
            invariant
                r <= PIECE_SIZE,
                val == code_prefix(*self, 7 * r),
                pow2(49) == 0x2000000000000,
            decreases PIECE_SIZE - r,
        {
            let mut c: usize = 0;
            while c < PIECE_SIZE
                invariant
                    r < PIECE_SIZE,
                    c <= PIECE_SIZE,
                    val == code_prefix(*self, 7 * r + c),
                    pow2(49) == 0x2000000000000,
                decreases PIECE_SIZE - c,
            {
                let n = 7 * r + c;
                proof {
                    lemma_code_prefix_bound(*self, n as int);
                    lemma_pow2_strictly_increases(n as nat, 49);
                    lemma_fundamental_div_mod_converse(n as int, 7, r as int, c as int);
                }
                val = val * 2;
                if self.data[r][c] != 0 {
                    val = val + 1;
                }
                c += 1;
            }
            r += 1;
        }
        val
    }
}

proof fn lemma_rolled_right_at(p: Piece)
    ensures
        forall|r: int, c: int|
            #![trigger rolled_right(p).at(r, c)]
            in_grid(r, c) ==> rolled_right(p).at(r, c) == if c > 0 {
                p.at(r, c - 1)
            } else {
                p.at(r, 6)
            },
{
    lemma_grid_of(|r: int, c: int| p.at(r, (c + 6) % 7));
}

proof fn lemma_rolled_down_at(p: Piece)
    ensures
        forall|r: int, c: int|
            #![trigger rolled_down(p).at(r, c)]
            in_grid(r, c) ==> rolled_down(p).at(r, c) == if r > 0 {
                p.at(r - 1, c)
            } else {
                p.at(6, c)
            },
{
    lemma_grid_of(|r: int, c: int| p.at((r + 6) % 7, c));
}

/// Rolling right a moved grid whose right column is clear moves it one step
/// further without wrapping.
pub proof fn lemma_roll_right_moved(q: Piece, i: int, j: int)
    requires
        0 <= i,
        0 <= j,
        forall|r: int, c: int| #![trigger q.at(r, c)] in_grid(r, c) && q.at(r, c) != 0 ==> c + j < 6,
    ensures
        rolled_right(moved(q, i, j)) == moved(q, i, j + 1),
{
    let m = moved(q, i, j);
    lemma_moved(q, i, j);
    lemma_moved(q, i, j + 1);
    lemma_rolled_right_at(m);
    assert forall|r: int, c: int| in_grid(r, c) implies rolled_right(m).at(r, c) == moved(
        q,
        i,
        j + 1,
    ).at(r, c) by {
        if c == 0 {
            assert(in_grid(r, 6));
            if in_grid(r - i, 6 - j) {
                assert(q.at(r - i, 6 - j) == 0);
            }
        } else {
            assert(in_grid(r, c - 1));
        }
    }
    lemma_same_cells(rolled_right(m), moved(q, i, j + 1));
}

/// Rolling down a moved grid whose bottom row is clear moves it one step
/// further without wrapping.
pub proof fn lemma_roll_down_moved(q: Piece, i: int)
    requires
        0 <= i,
        forall|r: int, c: int| #![trigger q.at(r, c)] in_grid(r, c) && q.at(r, c) != 0 ==> r + i < 6,
    ensures
        rolled_down(moved(q, i, 0)) == moved(q, i + 1, 0),
{
    let m = moved(q, i, 0);
    lemma_moved(q, i, 0);
    lemma_moved(q, i + 1, 0);
    lemma_rolled_down_at(m);
    assert forall|r: int, c: int| in_grid(r, c) implies rolled_down(m).at(r, c) == moved(
        q,
        i + 1,
        0,
    ).at(r, c) by {
        if r == 0 {
            assert(in_grid(6, c));
            if in_grid(6 - i, c) {
                assert(q.at(6 - i, c) == 0);
            }
        } else {
            assert(in_grid(r - 1, c));
        }
    }
    lemma_same_cells(rolled_down(m), moved(q, i + 1, 0));
}

/// Turning, flipping and moving keep a grid flat; turning, flipping and
/// shoving keep a filled cell.
pub proof fn lemma_transforms_keep(p: Piece)
    ensures
        flat(p) ==> flat(flipped(p)) && flat(rotated(p)) && flat(shoved(p)),
        forall|dr: int, dc: int| flat(p) ==> #[trigger] flat(moved(p, dr, dc)),
        !is_empty(p) ==> !is_empty(flipped(p)) && !is_empty(rotated(p)) && !is_empty(shoved(p)),
{
    lemma_grid_of(|r: int, c: int| p.at(6 - r, c));
    lemma_grid_of(|r: int, c: int| flipped(p).at(c, r));
    assert forall|dr: int, dc: int| flat(p) implies #[trigger] flat(moved(p, dr, dc)) by {
        lemma_moved(p, dr, dc);
    }
    if flat(p) {
        assert forall|r: int, c: int| in_grid(r, c) implies flipped(p).at(r, c) <= 1 by {
            assert(in_grid(6 - r, c));
        }
        assert forall|r: int, c: int| in_grid(r, c) implies rotated(p).at(r, c) <= 1 by {
            assert(in_grid(c, r));
            assert(in_grid(6 - c, r));
        }
        assert(flat(moved(p, -top_row(p), -left_col(p))));
    }
    if !is_empty(p) {
        let (r, c) = choose|r: int, c: int| in_grid(r, c) && p.at(r, c) != 0;
        assert(in_grid(6 - r, c));
        assert(flipped(p).at(6 - r, c) == p.at(6 - (6 - r), c));
        assert(in_grid(c, 6 - r));
        assert(rotated(p).at(c, 6 - r) == flipped(p).at(6 - r, c));
        lemma_bounding_box(p);
        lemma_moved(p, -top_row(p), -left_col(p));
        assert(in_grid(r - top_row(p), c - left_col(p)));
        assert(shoved(p).at(r - top_row(p), c - left_col(p)) != 0);
    }
}

proof fn lemma_overlaid_at(a: Piece, b: Piece)
    ensures
        forall|r: int, c: int|
            #![trigger overlaid(a, b).at(r, c)]
            in_grid(r, c) ==> overlaid(a, b).at(r, c) == (a.at(r, c) + b.at(r, c)) as u8,
{
    lemma_grid_of(|r: int, c: int| (a.at(r, c) + b.at(r, c)) as u8);
}

/// Overlaying two 0/1 grids that share no filled cell gives a flat grid.
pub proof fn lemma_disjoint_overlay_is_flat(a: Piece, b: Piece)
    requires
        flat(a),
        flat(b),
        forall|r: int, c: int| in_grid(r, c) ==> a.at(r, c) == 0 || b.at(r, c) == 0,
    ensures
        flat(overlaid(a, b)),
{
    lemma_overlaid_at(a, b);
}

/// Overlaying a 0/1 grid with a filled cell on itself is never flat.
pub proof fn lemma_self_overlay_is_not_flat(p: Piece)
    requires
        flat(p),
        !is_empty(p),
    ensures
        !flat(overlaid(p, p)),
{
    lemma_overlaid_at(p, p);
    let (r, c) = choose|r: int, c: int| in_grid(r, c) && p.at(r, c) != 0;
    assert(overlaid(p, p).at(r, c) == 2);
}

/// How a cell is drawn: a full block when filled, a light shade when empty.
pub open spec fn glyph(v: u8) -> char {
    if v == 0 {
        '\u{2591}'
    } else {
        '\u{2588}'
    }
}

/// Row `r` drawn as text, ended by a line break.
pub open spec fn row_text(p: Piece, r: int) -> Seq<char> {
    Seq::new(7, |c: int| glyph(p.at(r, c))).push('\n')
}

/// The first `n` rows drawn as text.
pub open spec fn rows_text(p: Piece, n: int) -> Seq<char>
    decreases n,
{
    if n <= 0 {
        seq![]
    } else {
        rows_text(p, n - 1) + row_text(p, n - 1)
    }
}

impl Piece {
    /// The grid drawn as text: one line per row, a full block for a filled
    /// cell and a light shade for an empty one.
    pub fn to_text(&self) -> (s: String)
        ensures
            s@ == rows_text(*self, 7),
    {
        proof {
            reveal_strlit("\u{2588}");
            reveal_strlit("\u{2591}");
            reveal_strlit("\n");
        }
        let mut s = String::new();
        let mut r: usize = 0;
        while r < PIECE_SIZE
            invariant
                r <= PIECE_SIZE,
                s@ == rows_text(*self, r as int),
                "\u{2588}"@ == seq!['\u{2588}'],
                "\u{2591}"@ == seq!['\u{2591}'],
                "\n"@ == seq!['\n'],
            decreases PIECE_SIZE - r,
        {
            let ghost before = s@;
            let mut c: usize = 0;
            while c < PIECE_SIZE
                invariant
                    r < PIECE_SIZE,
                    c <= PIECE_SIZE,
                    s@ == before + Seq::new(c as nat, |j: int| glyph(self.at(r as int, j))),
                    "\u{2588}"@ == seq!['\u{2588}'],
                    "\u{2591}"@ == seq!['\u{2591}'],
                decreases PIECE_SIZE - c,
            {
                if self.data[r][c] == 0 {
                    s.append("\u{2591}");
                } else {
                    s.append("\u{2588}");
                }
                c += 1;
                assert(s@ =~= before + Seq::new(c as nat, |j: int| glyph(self.at(r as int, j))));
            }
            s.append("\n");
            r += 1;
            assert(s@ =~= rows_text(*self, r as int));
        }
        s
    }
}

} // verus!
