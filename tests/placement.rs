use puzzle_a_day::piece::Piece;
use puzzle_a_day::placement::{get_orientations, get_placements, get_shifts};

fn cells(list: &[(usize, usize)]) -> Piece {
    let mut data = [[0u8; 7]; 7];
    for &(r, c) in list {
        data[r][c] = 1;
    }
    Piece::from(data)
}

#[test]
fn orientation_counts_of_the_tiles() {
    let counts: Vec<usize> = Piece::playing_pieces()
        .iter()
        .map(|p| get_orientations(p).len())
        .collect();
    assert_eq!(counts, vec![2, 8, 4, 4, 8, 4, 8, 8]);
}

#[test]
fn orientations_are_at_most_eight_and_repeatable() {
    for tile in Piece::playing_pieces() {
        let first = get_orientations(&tile);
        let second = get_orientations(&tile);
        assert!(first.len() <= 8);
        assert_eq!(first, second);
        for (i, a) in first.iter().enumerate() {
            for b in first.iter().skip(i + 1) {
                assert_ne!(a, b);
            }
        }
    }
}

#[test]
fn orientations_are_shoved() {
    for o in get_orientations(&cells(&[(4, 4), (4, 5), (5, 5)])) {
        let mut s = o;
        s.shove_left_up();
        assert_eq!(s, o);
    }
}

#[test]
fn a_single_cell_has_one_orientation() {
    let o = get_orientations(&cells(&[(3, 3)]));
    assert_eq!(o, vec![cells(&[(0, 0)])]);
}

#[test]
fn shifts_of_a_domino() {
    assert_eq!(get_shifts(&cells(&[(0, 0), (0, 1)])).len(), (7 - 1 + 1) * (7 - 2 + 1));
    assert_eq!(get_shifts(&cells(&[(0, 0), (1, 0)])).len(), (7 - 2 + 1) * (7 - 1 + 1));
    assert_eq!(get_shifts(&cells(&[(0, 0), (1, 1)])).len(), (7 - 2 + 1) * (7 - 2 + 1));
}

#[test]
fn shifts_do_not_depend_on_where_the_piece_starts() {
    let here = get_shifts(&cells(&[(3, 4), (3, 5)]));
    let corner = get_shifts(&cells(&[(0, 0), (0, 1)]));
    assert_eq!(here, corner);
    assert_eq!(here.len(), 42);
}

#[test]
fn shifts_come_row_offset_first() {
    let s = get_shifts(&cells(&[(0, 0), (0, 1)]));
    assert_eq!(s[0], cells(&[(0, 0), (0, 1)]));
    assert_eq!(s[1], cells(&[(0, 1), (0, 2)]));
    assert_eq!(s[6], cells(&[(1, 0), (1, 1)]));
    assert_eq!(s[41], cells(&[(6, 5), (6, 6)]));
}

#[test]
fn shifts_of_a_piece_spanning_the_grid() {
    let s = get_shifts(&cells(&[(0, 0), (6, 6)]));
    assert_eq!(s, vec![cells(&[(0, 0), (6, 6)])]);
}

#[test]
fn placements_of_the_rectangle() {
    let tiles = Piece::playing_pieces();
    assert_eq!(get_placements(&tiles[0]).len(), 30 + 30);
}

#[test]
fn placements_of_every_tile() {
    let counts: Vec<usize> = Piece::playing_pieces()
        .iter()
        .map(|p| get_placements(p).len())
        .collect();
    assert_eq!(counts, vec![60, 240, 100, 100, 192, 120, 192, 192]);
}
