//! The fixed board: its blocked cells, the eight tiles, and the labels of its cells.
use crate::piece::{grid_of, in_grid, lemma_grid_of, lemma_same_cells, Piece, PIECE_SIZE};
use vstd::prelude::*;

verus! {

/// Whether `(r, c)` is one of the cells that lie outside the board's shape.
pub open spec fn blocked(r: int, c: int) -> bool {
    (r < 2 && c == 6) || (r == 6 && c >= 3)
}

/// The empty board: its blocked cells hold 1, every other cell 0.
pub open spec fn starting_grid() -> Piece {
    grid_of(
        |r: int, c: int|
            if blocked(r, c) {
                1u8
            } else {
                0u8
            },
    )
}

/// The number of tiles.
pub const TILE_COUNT: usize = 8;

/// Which cells tile `k` covers, in its initial position.
pub open spec fn tile_covers(k: int, r: int, c: int) -> bool {
    if k == 0 {
        // a 2x3 rectangle
        r < 2 && c < 3
    } else if k == 1 {
        // a 2x3 rectangle with a corner cut away
        r < 2 && c < 3 && !(r == 1 && c == 2)
    } else if k == 2 {
        // a right angle with arms of three
        (r == 0 && c < 3) || (c == 0 && r < 3)
    } else if k == 3 {
        // an S
        (r == 0 && (c == 1 || c == 2)) || (r == 1 && c == 1) || (r == 2 && c < 2)
    } else if k == 4 {
        // an L
        (r == 0 && c < 4) || (r == 1 && c == 0)
    } else if k == 5 {
        // a C
        r < 2 && c < 3 && !(r == 0 && c == 1)
    } else if k == 6 {
        // a sign post
        (r == 0 && c == 2) || (r == 1 && c < 4)
    } else {
        // a crinkle
        (r == 0 && 1 <= c < 4) || (r == 1 && c < 2)
    }
}

/// Tile `k` in its initial position, in the top-left corner.
pub open spec fn tile(k: int) -> Piece {
    grid_of(
        |r: int, c: int|
            if tile_covers(k, r, c) {
                1u8
            } else {
                0u8
            },
    )
}

impl Piece {
    /// The empty board, with only the cells outside its shape filled.
    pub fn starting_board() -> (b: Piece)
        ensures
            b == starting_grid(),
    {
        proof {
            reveal(grid_of);
        }
        Piece::from(
            [
                [0, 0, 0, 0, 0, 0, 1],
                [0, 0, 0, 0, 0, 0, 1],
                [0, 0, 0, 0, 0, 0, 0],
                [0, 0, 0, 0, 0, 0, 0],
                [0, 0, 0, 0, 0, 0, 0],
                [0, 0, 0, 0, 0, 0, 0],
                [0, 0, 0, 1, 1, 1, 1],
            ],
        )
    }

    /// The eight tiles of the puzzle, in their fixed order.
    pub fn playing_pieces() -> (v: Vec<Piece>)
        ensures
            v@ == seq![tile(0), tile(1), tile(2), tile(3), tile(4), tile(5), tile(6), tile(7)],
    {
        proof {
            reveal(grid_of);
        }
        vec![
            Piece::from(
                [
                    [1, 1, 1, 0, 0, 0, 0],
                    [1, 1, 1, 0, 0, 0, 0],
                    [0, 0, 0, 0, 0, 0, 0],
                    [0, 0, 0, 0, 0, 0, 0],
                    [0, 0, 0, 0, 0, 0, 0],
                    [0, 0, 0, 0, 0, 0, 0],
                    [0, 0, 0, 0, 0, 0, 0],
                ],
            ),
            Piece::from(
                [
                    [1, 1, 1, 0, 0, 0, 0],
                    [1, 1, 0, 0, 0, 0, 0],
                    [0, 0, 0, 0, 0, 0, 0],
                    [0, 0, 0, 0, 0, 0, 0],
                    [0, 0, 0, 0, 0, 0, 0],
                    [0, 0, 0, 0, 0, 0, 0],
                    [0, 0, 0, 0, 0, 0, 0],
                ],
            ),
            Piece::from(
                [
                    [1, 1, 1, 0, 0, 0, 0],
                    [1, 0, 0, 0, 0, 0, 0],
                    [1, 0, 0, 0, 0, 0, 0],
                    [0, 0, 0, 0, 0, 0, 0],
                    [0, 0, 0, 0, 0, 0, 0],
                    [0, 0, 0, 0, 0, 0, 0],
                    [0, 0, 0, 0, 0, 0, 0],
                ],
            ),
            Piece::from(
                [
                    [0, 1, 1, 0, 0, 0, 0],
                    [0, 1, 0, 0, 0, 0, 0],
                    [1, 1, 0, 0, 0, 0, 0],
                    [0, 0, 0, 0, 0, 0, 0],
                    [0, 0, 0, 0, 0, 0, 0],
                    [0, 0, 0, 0, 0, 0, 0],
                    [0, 0, 0, 0, 0, 0, 0],
                ],
            ),
            Piece::from(
                [
                    [1, 1, 1, 1, 0, 0, 0],
                    [1, 0, 0, 0, 0, 0, 0],
                    [0, 0, 0, 0, 0, 0, 0],
                    [0, 0, 0, 0, 0, 0, 0],
                    [0, 0, 0, 0, 0, 0, 0],
                    [0, 0, 0, 0, 0, 0, 0],
                    [0, 0, 0, 0, 0, 0, 0],
                ],
            ),
            Piece::from(
                [
                    [1, 0, 1, 0, 0, 0, 0],
                    [1, 1, 1, 0, 0, 0, 0],
                    [0, 0, 0, 0, 0, 0, 0],
                    [0, 0, 0, 0, 0, 0, 0],
                    [0, 0, 0, 0, 0, 0, 0],
                    [0, 0, 0, 0, 0, 0, 0],
                    [0, 0, 0, 0, 0, 0, 0],
                ],
            ),
            Piece::from(
                [
                    [0, 0, 1, 0, 0, 0, 0],
                    [1, 1, 1, 1, 0, 0, 0],
                    [0, 0, 0, 0, 0, 0, 0],
                    [0, 0, 0, 0, 0, 0, 0],
                    [0, 0, 0, 0, 0, 0, 0],
                    [0, 0, 0, 0, 0, 0, 0],
                    [0, 0, 0, 0, 0, 0, 0],
                ],
            ),
            Piece::from(
                [
                    [0, 1, 1, 1, 0, 0, 0],
                    [1, 1, 0, 0, 0, 0, 0],
                    [0, 0, 0, 0, 0, 0, 0],
                    [0, 0, 0, 0, 0, 0, 0],
                    [0, 0, 0, 0, 0, 0, 0],
                    [0, 0, 0, 0, 0, 0, 0],
                    [0, 0, 0, 0, 0, 0, 0],
                ],
            ),
        ]
    }
}

/// The three-letter name of month `m`, counted from 0.
pub open spec fn month_label(m: int) -> Seq<char> {
    if m == 0 {
        "jan"@
    } else if m == 1 {
        "feb"@
    } else if m == 2 {
        "mar"@
    } else if m == 3 {
        "apr"@
    } else if m == 4 {
        "may"@
    } else if m == 5 {
        "jun"@
    } else if m == 6 {
        "jul"@
    } else if m == 7 {
        "aug"@
    } else if m == 8 {
        "sep"@
    } else if m == 9 {
        "oct"@
    } else if m == 10 {
        "nov"@
    } else {
        "dec"@
    }
}

/// The character of decimal digit `d`.
pub open spec fn digit_char(d: int) -> char {
    if d == 0 {
        '0'
    } else if d == 1 {
        '1'
    } else if d == 2 {
        '2'
    } else if d == 3 {
        '3'
    } else if d == 4 {
        '4'
    } else if d == 5 {
        '5'
    } else if d == 6 {
        '6'
    } else if d == 7 {
        '7'
    } else if d == 8 {
        '8'
    } else {
        '9'
    }
}

/// `n` (below 100) in decimal, without leading zeros.
pub open spec fn decimal(n: int) -> Seq<char> {
    if n < 10 {
        seq![digit_char(n)]
    } else {
        seq![digit_char(n / 10), digit_char(n % 10)]
    }
}

/// The day of the month that cell `(r, c)` shows, for a cell below the months.
pub open spec fn day_at(r: int, c: int) -> int {
    7 * (r - 2) + c + 1
}

/// The label printed on cell `(r, c)`: a month in the top two rows, a day of
/// the month below them; none for a cell outside the board's shape.
pub open spec fn label_of(r: int, c: int) -> Option<Seq<char>> {
    if !in_grid(r, c) || blocked(r, c) {
        None
    } else if r < 2 {
        Some(month_label(6 * r + c))
    } else {
        Some(decimal(day_at(r, c)))
    }
}

/// The labels of the first `n` cells, row by row, skipping unlabelled cells.
pub open spec fn labels_upto(n: int) -> Seq<Seq<char>>
    decreases n,
{
    if n <= 0 {
        seq![]
    } else {
        match label_of((n - 1) / 7, (n - 1) % 7) {
            Some(s) => labels_upto(n - 1).push(s),
            None => labels_upto(n - 1),
        }
    }
}

/// Whether cell `(r, c)` comes before cell `(i, j)` row by row.
pub open spec fn earlier(r: int, c: int, i: int, j: int) -> bool {
    r < i || (r == i && c < j)
}

/// What a label that names no cell of the board is refused with.
#[derive(Clone, Copy, Debug, PartialEq, Eq, Structural)]
pub struct UnknownLabel;

fn month_name(m: usize) -> (s: &'static str)
    requires
        m < 12,
    ensures
        s@ == month_label(m as int),
{
    match m {
        0 => "jan",
        1 => "feb",
        2 => "mar",
        3 => "apr",
        4 => "may",
        5 => "jun",
        6 => "jul",
        7 => "aug",
        8 => "sep",
        9 => "oct",
        10 => "nov",
        _ => "dec",
    }
}

fn digit_text(d: usize) -> (s: &'static str)
    requires
        d < 10,
    ensures
        s@ == seq![digit_char(d as int)],
{
    match d {
        0 => {
            proof {
                reveal_strlit("0");
            }
            "0"
        },
        1 => {
            proof {
                reveal_strlit("1");
            }
            "1"
        },
        2 => {
            proof {
                reveal_strlit("2");
            }
            "2"
        },
        3 => {
            proof {
                reveal_strlit("3");
            }
            "3"
        },
        4 => {
            proof {
                reveal_strlit("4");
            }
            "4"
        },
        5 => {
            proof {
                reveal_strlit("5");
            }
            "5"
        },
        6 => {
            proof {
                reveal_strlit("6");
            }
            "6"
        },
        7 => {
            proof {
                reveal_strlit("7");
            }
            "7"
        },
        8 => {
            proof {
                reveal_strlit("8");
            }
            "8"
        },
        _ => {
            proof {
                reveal_strlit("9");
            }
            "9"
        },
    }
}

fn decimal_text(n: usize) -> (s: String)
    requires
        n < 100,
    ensures
        s@ == decimal(n as int),
{
    let mut s = String::new();
    if n >= 10 {
        s.append(digit_text(n / 10));
    }
    s.append(digit_text(n % 10));
    proof {
        if n < 10 {
            assert(s@ =~= decimal(n as int));
        } else {
            assert(s@ =~= decimal(n as int));
        }
    }
    s
}

/// Whether two strings hold the same characters.
fn same_text(a: &str, b: &str) -> (r: bool)
    ensures
        r == (a@ == b@),
{
    let n = a.unicode_len();
    if n != b.unicode_len() {
        return false;
    }
    let mut i: usize = 0;
    while i < n
        invariant
            n == a@.len(),
            n == b@.len(),
            i <= n,
            forall|k: int| 0 <= k < i ==> a@[k] == b@[k],
        decreases n - i,
    {
        if a.get_char(i) != b.get_char(i) {
            return false;
        }
        i += 1;
    }
    assert(a@ =~= b@);
    true
}

/// The label of cell `(r, c)`, if it has one.
fn label_at(r: usize, c: usize) -> (s: Option<String>)
    requires
        r < PIECE_SIZE,
        c < PIECE_SIZE,
    ensures
        match s {
            Some(t) => label_of(r as int, c as int) == Some(t@),
            None => label_of(r as int, c as int) is None,
        },
{
    if (r < 2 && c == 6) || (r == 6 && c >= 3) {
        None
    } else if r < 2 {
        Some(String::from_str(month_name(6 * r + c)))
    } else {
        Some(decimal_text(7 * (r - 2) + c + 1))
    }
}

impl Piece {
    /// The labels of the board's cells, row by row.
    pub fn get_labels() -> (v: Vec<String>)
        ensures
            v@.map_values(|s: String| s@) == labels_upto(49),
    {
        let mut v: Vec<String> = Vec::new();
        let mut n: usize = 0;
        while n < 49
            invariant
                n <= 49,
                v@.map_values(|s: String| s@) == labels_upto(n as int),
            decreases 49 - n,
        {
            let ghost old_v = v@;
            match label_at(n / 7, n % 7) {
                Some(s) => {
                    v.push(s);
                    proof {
                        assert(v@.map_values(|s: String| s@) =~= old_v.map_values(
                            |s: String| s@,
                        ).push(s@));
                    }
                },
                None => {},
            }
            n += 1;
        }
        v
    }

    /// The number of the first cell, row by row, that carries `label`; 49 when
    /// no cell carries it.
    fn coord_for(label: &str) -> (n: usize)
        ensures
            n == first_labelled(label@, 0),
    {
        let mut n: usize = 0;
        while n < 49
            invariant
                n <= 49,
                first_labelled(label@, 0) == first_labelled(label@, n as int),
            decreases 49 - n,
        {
            match label_at(n / 7, n % 7) {
                Some(s) => {
                    if same_text(s.as_str(), label) {
                        return n;
                    }
                },
                None => {},
            }
            n += 1;
        }
        n
    }

    /// Fills the cell that carries `label`, so that no tile may cover it. A
    /// label that names no cell is refused and the grid is left as it was.
    pub fn mark_coord_for(&mut self, label: &str) -> (res: Result<(), UnknownLabel>)
        ensures
            res is Ok <==> marked(*old(self), label@) is Some,
            res is Ok ==> Some(*final(self)) == marked(*old(self), label@),
            res is Err ==> *final(self) == *old(self),
    {
        let n = Piece::coord_for(label);
        if n < 49 {
            let ghost before = *self;
            self.data[n / 7][n % 7] = 1;
            proof {
                lemma_with_cell(before, n as int / 7, n as int % 7, 1);
                lemma_same_cells(*self, with_cell(before, n as int / 7, n as int % 7, 1));
            }
            Ok(())
        } else {
            Err(UnknownLabel)
        }
    }
}

/// The number of the first cell at `n` or after it, row by row, that carries
/// `label`; 49 when none does.
pub open spec fn first_labelled(label: Seq<char>, n: int) -> int
    decreases 49 - n,
{
    if n >= 49 {
        49
    } else if label_of(n / 7, n % 7) == Some(label) {
        n
    } else {
        first_labelled(label, n + 1)
    }
}

/// `p` with cell `(r, c)` set to `v`.
pub open spec fn with_cell(p: Piece, r: int, c: int, v: u8) -> Piece {
    grid_of(cells_with(p, r, c, v))
}

/// The cells of `p`, with cell `(r, c)` set to `v`.
pub open spec fn cells_with(p: Piece, r: int, c: int, v: u8) -> spec_fn(int, int) -> u8 {
    |i: int, j: int|
        if i == r && j == c {
            v
        } else {
            p.at(i, j)
        }
}

/// The cells of `with_cell`: the one set cell, and every other as it was.
pub proof fn lemma_with_cell(p: Piece, r: int, c: int, v: u8)
    ensures
        forall|i: int, j: int|
            #![trigger with_cell(p, r, c, v).at(i, j)]
            in_grid(i, j) ==> with_cell(p, r, c, v).at(i, j) == if i == r && j == c {
                v
            } else {
                p.at(i, j)
            },
{
    lemma_grid_of(cells_with(p, r, c, v));
}

/// `board` with the cell that carries `label` filled; none when no cell
/// carries it.
pub open spec fn marked(board: Piece, label: Seq<char>) -> Option<Piece> {
    let n = first_labelled(label, 0);
    if n < 49 {
        Some(with_cell(board, n / 7, n % 7, 1))
    } else {
        None
    }
}

} // verus!
