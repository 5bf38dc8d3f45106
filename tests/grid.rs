use puzzle_a_day::piece::Piece;

fn cells(list: &[(usize, usize)]) -> Piece {
    let mut data = [[0u8; 7]; 7];
    for &(r, c) in list {
        data[r][c] = 1;
    }
    Piece::from(data)
}

fn filled(p: &Piece) -> Vec<(usize, usize)> {
    let mut out = Vec::new();
    for r in 0..7 {
        for c in 0..7 {
            if p.data[r][c] != 0 {
                out.push((r, c));
            }
        }
    }
    out
}

#[test]
fn starting_board_blocks_six_cells() {
    let b = Piece::starting_board();
    assert_eq!(filled(&b), vec![(0, 6), (1, 6), (6, 3), (6, 4), (6, 5), (6, 6)]);
}

#[test]
fn playing_pieces_are_the_eight_tiles() {
    let tiles = Piece::playing_pieces();
    assert_eq!(tiles.len(), 8);
    let sizes: Vec<usize> = tiles.iter().map(|p| filled(p).len()).collect();
    assert_eq!(sizes, vec![6, 5, 5, 5, 5, 5, 5, 5]);
    assert_eq!(filled(&tiles[3]), vec![(0, 1), (0, 2), (1, 1), (2, 0), (2, 1)]);
    assert_eq!(filled(&tiles[7]), vec![(0, 1), (0, 2), (0, 3), (1, 0), (1, 1)]);
}

#[test]
fn flip_updown_reverses_rows() {
    let mut p = cells(&[(0, 0), (1, 3)]);
    p.flip_updown();
    assert_eq!(filled(&p), vec![(5, 3), (6, 0)]);
}

#[test]
fn rotate90_turns_a_quarter() {
    let mut p = cells(&[(0, 0), (0, 1), (0, 2)]);
    p.rotate90();
    assert_eq!(filled(&p), vec![(0, 6), (1, 6), (2, 6)]);
}

#[test]
fn four_quarter_turns_are_the_identity() {
    for tile in Piece::playing_pieces() {
        let mut p = tile;
        for _ in 0..4 {
            p.rotate90();
        }
        assert_eq!(p, tile);
    }
}

#[test]
fn rolls_wrap_round() {
    let mut p = cells(&[(6, 2), (3, 6)]);
    p.roll_down();
    assert_eq!(filled(&p), vec![(0, 2), (4, 6)]);
    p.roll_right();
    assert_eq!(filled(&p), vec![(0, 3), (4, 0)]);
}

#[test]
fn col_and_row_read_the_grid() {
    let p = cells(&[(2, 5), (4, 5)]);
    assert_eq!(p.col(5), [0, 0, 1, 0, 1, 0, 0]);
    assert_eq!(p.row(2), [0, 0, 0, 0, 0, 1, 0]);
}

#[test]
fn shove_moves_to_the_corner() {
    let mut p = cells(&[(3, 4), (4, 4), (4, 5)]);
    p.shove_left_up();
    assert_eq!(filled(&p), vec![(0, 0), (1, 0), (1, 1)]);
}

#[test]
fn shove_twice_is_shove_once() {
    let samples = [
        cells(&[(3, 4), (4, 4), (4, 5)]),
        cells(&[(6, 6)]),
        cells(&[(0, 3), (6, 0)]),
        cells(&[]),
    ];
    for p in samples {
        let mut once = p;
        once.shove_left_up();
        let mut twice = once;
        twice.shove_left_up();
        assert_eq!(once, twice);
    }
}

#[test]
fn shove_leaves_an_empty_grid_empty() {
    let mut p = cells(&[]);
    p.shove_left_up();
    assert_eq!(p, cells(&[]));
}

#[test]
fn overlay_adds_cells() {
    let a = cells(&[(0, 0), (1, 1)]);
    let b = cells(&[(1, 1), (2, 2)]);
    let s = a.overlay(&b);
    assert_eq!(s.data[0][0], 1);
    assert_eq!(s.data[1][1], 2);
    assert_eq!(s.data[2][2], 1);
    assert!(!s.is_flat());
}

#[test]
fn disjoint_overlay_is_flat() {
    let a = cells(&[(0, 0), (0, 1)]);
    let b = cells(&[(1, 0), (1, 1)]);
    assert!(a.overlay(&b).is_flat());
}

#[test]
fn self_overlay_is_not_flat() {
    for tile in Piece::playing_pieces() {
        assert!(!tile.overlay(&tile).is_flat());
    }
}

#[test]
fn is_flat_accepts_zero_one_grids() {
    assert!(Piece::starting_board().is_flat());
    let mut data = [[0u8; 7]; 7];
    data[3][3] = 2;
    assert!(!Piece::from(data).is_flat());
}

#[test]
fn encode_reads_cells_as_bits() {
    assert_eq!(cells(&[(6, 6)]).encode(), 1);
    assert_eq!(cells(&[(0, 0)]).encode(), 1u64 << 48);
    assert_eq!(cells(&[(6, 5), (6, 6)]).encode(), 3);
    assert_eq!(cells(&[]).encode(), 0);
    let mut data = [[0u8; 7]; 7];
    data[6][6] = 5;
    assert_eq!(Piece::from(data).encode(), 1);
}

#[test]
fn equality_compares_every_cell() {
    assert_eq!(cells(&[(2, 3)]), cells(&[(2, 3)]));
    assert_ne!(cells(&[(2, 3)]), cells(&[(3, 2)]));
}

#[test]
fn to_text_draws_one_line_per_row() {
    let text = cells(&[(0, 0), (6, 6)]).to_text();
    let lines: Vec<&str> = text.split('\n').collect();
    assert_eq!(lines.len(), 8);
    assert_eq!(lines[0], "\u{2588}\u{2591}\u{2591}\u{2591}\u{2591}\u{2591}\u{2591}");
    assert_eq!(lines[3], "\u{2591}".repeat(7));
    assert_eq!(lines[6], "\u{2591}\u{2591}\u{2591}\u{2591}\u{2591}\u{2591}\u{2588}");
    assert_eq!(lines[7], "");
}
