use puzzle_a_day::board::UnknownLabel;
use puzzle_a_day::piece::Piece;

#[test]
fn labels_cover_months_and_days() {
    let labels = Piece::get_labels();
    assert_eq!(labels.len(), 12 + 31);
    assert_eq!(labels[0], "jan");
    assert_eq!(labels[5], "jun");
    assert_eq!(labels[6], "jul");
    assert_eq!(labels[11], "dec");
    assert_eq!(labels[12], "1");
    assert_eq!(labels[21], "10");
    assert_eq!(labels[42], "31");
}

#[test]
fn mark_coord_for_fills_the_labelled_cell() {
    let mut b = Piece::starting_board();
    assert_eq!(b.mark_coord_for("jun"), Ok(()));
    assert_eq!(b.data[0][5], 1);
    assert_eq!(b.mark_coord_for("23"), Ok(()));
    assert_eq!(b.data[5][1], 1);
    assert_eq!(b.mark_coord_for("31"), Ok(()));
    assert_eq!(b.data[6][2], 1);
    assert_eq!(b.mark_coord_for("dec"), Ok(()));
    assert_eq!(b.data[1][5], 1);
}

#[test]
fn mark_coord_for_refuses_an_unknown_label() {
    let mut b = Piece::starting_board();
    assert_eq!(b.mark_coord_for("32"), Err(UnknownLabel));
    assert_eq!(b.mark_coord_for("?"), Err(UnknownLabel));
    assert_eq!(b.mark_coord_for(""), Err(UnknownLabel));
    assert_eq!(b.mark_coord_for("Jan"), Err(UnknownLabel));
    assert_eq!(b, Piece::starting_board());
}
