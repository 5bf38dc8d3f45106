use puzzle_a_day::board::UnknownLabel;
use puzzle_a_day::piece::Piece;
use puzzle_a_day::solution::{encode_solution, solution_squares, Square};
use puzzle_a_day::solver::{open_board, placement_table, search, solve, solve_board, Arrangement};

fn cells(list: &[(usize, usize)]) -> Piece {
    let mut data = [[0u8; 7]; 7];
    for &(r, c) in list {
        data[r][c] = 1;
    }
    Piece::from(data)
}

fn all_ones(b: &Piece) -> bool {
    b.data.iter().all(|row| row.iter().all(|&v| v == 1))
}

fn ids(v: &[Arrangement]) -> Vec<String> {
    let mut out: Vec<String> = v.iter().map(|a| encode_solution(&a.pieces)).collect();
    out.sort();
    out
}

fn sequential(board: Piece) -> Vec<Arrangement> {
    let table = placement_table();
    let mut out = Vec::new();
    search(Vec::new(), board, &table, table.len(), &mut out);
    out
}

#[test]
fn jan_first_has_a_solution() {
    let found = solve(&vec!["jan", "1"]).unwrap();
    assert!(!found.is_empty());
    for a in &found {
        assert_eq!(a.pieces.len(), 8);
        assert!(all_ones(&a.board));
    }
}

#[test]
fn jun_twenty_third_covers_every_cell_once() {
    let found = solve(&vec!["jun", "23"]).unwrap();
    assert!(found.len() >= 1);
    for a in &found {
        assert!(a.board.is_flat());
        assert!(all_ones(&a.board));
        let mut b = open_board(&vec!["jun", "23"]).unwrap();
        for p in &a.pieces {
            b = b.overlay(p);
        }
        assert_eq!(b, a.board);
    }
}

#[test]
fn parallel_and_sequential_searches_agree() {
    let board = open_board(&vec!["jun", "23"]).unwrap();
    let table = placement_table();
    let parallel = solve_board(board, &table);
    let single = sequential(board);
    assert_eq!(parallel.len(), single.len());
    assert_eq!(ids(&parallel), ids(&single));
    let in_order: Vec<String> = parallel.iter().map(|a| encode_solution(&a.pieces)).collect();
    let single_order: Vec<String> = single.iter().map(|a| encode_solution(&a.pieces)).collect();
    assert_eq!(in_order, single_order);
}

#[test]
fn unconstrained_board_has_a_fixed_count() {
    let found = solve(&vec![]).unwrap();
    assert_eq!(found.len(), 59787);
    for a in &found {
        assert_eq!(a.pieces.len(), 8);
        assert!(a.board.is_flat());
        let open: usize = a
            .board
            .data
            .iter()
            .map(|row| row.iter().filter(|&&v| v == 0).count())
            .sum();
        assert_eq!(open, 2);
    }
}

#[test]
fn unknown_label_is_refused_before_searching() {
    assert!(matches!(solve(&vec!["jan", "32"]), Err(UnknownLabel)));
    assert!(matches!(solve(&vec!["feb_"]), Err(UnknownLabel)));
    assert_eq!(open_board(&vec!["nope"]), Err(UnknownLabel));
}

#[test]
fn open_board_marks_each_label() {
    let b = open_board(&vec!["jan", "1"]).unwrap();
    let mut want = Piece::starting_board();
    want.data[0][0] = 1;
    want.data[2][0] = 1;
    assert_eq!(b, want);
}

#[test]
fn search_stops_at_the_requested_tile() {
    let table = placement_table();
    let mut out = Vec::new();
    search(Vec::new(), Piece::starting_board(), &table, 1, &mut out);
    assert!(!out.is_empty());
    assert!(out.len() < table[0].len());
    for a in &out {
        assert_eq!(a.pieces.len(), 1);
        assert!(a.board.is_flat());
    }
    let mut done = Vec::new();
    search(Vec::new(), Piece::starting_board(), &table, 0, &mut done);
    assert_eq!(done.len(), 1);
    assert_eq!(done[0].board, Piece::starting_board());
}

#[test]
fn encode_solution_lists_codes_largest_first() {
    let pieces = vec![cells(&[(6, 6)]), cells(&[(0, 0)]), cells(&[(6, 4), (6, 5)])];
    assert_eq!(encode_solution(&pieces), "1000000000000-6-1");
    let reordered = vec![pieces[2], pieces[0], pieces[1]];
    assert_eq!(encode_solution(&reordered), "1000000000000-6-1");
    assert_eq!(encode_solution(&vec![]), "");
    assert_eq!(encode_solution(&vec![cells(&[])]), "0");
}

#[test]
fn solution_squares_colour_each_tile() {
    let pieces = vec![cells(&[(0, 0), (0, 1)]), cells(&[(0, 1), (1, 1)])];
    let g = solution_squares(&pieces);
    assert_eq!(g[0][0], Square::Tile(0));
    assert_eq!(g[0][1], Square::Tile(1));
    assert_eq!(g[1][1], Square::Tile(1));
    assert_eq!(g[3][3], Square::Open);
    assert_eq!(g[0][6], Square::Hidden);
    assert_eq!(g[6][6], Square::Hidden);
}
