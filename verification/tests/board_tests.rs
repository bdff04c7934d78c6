use sudoku_wfc::board::ParseError;
use sudoku_wfc::{Board, Cell};

fn empty_board() -> Board {
    Board::default()
}

#[test]
fn new_board_is_empty_and_solvable() {
    let b = empty_board();
    for i in 0..81 {
        assert_eq!(b.cell_at(i), Cell::Empty);
    }
    assert!(b.can_solve());
}

#[test]
fn set_cell_stores_a_consistent_value() {
    let mut b = empty_board();
    b.set_cell((0, 0), Some(5));
    assert_eq!(b.at((0, 0)), Cell::Good(5));
    assert!(b.can_solve());
}

#[test]
fn duplicate_in_row_marks_all_values_of_the_row() {
    let mut b = empty_board();
    b.set_cell((0, 0), Some(7));
    b.set_cell((0, 1), Some(7));
    // a third, different value in the same row is flagged too
    b.set_cell((0, 5), Some(3));
    assert_eq!(b.at((0, 0)), Cell::Bad(7));
    assert_eq!(b.at((0, 1)), Cell::Bad(7));
    assert_eq!(b.at((0, 5)), Cell::Bad(3));
    assert!(!b.can_solve());
}

#[test]
fn duplicate_leaves_other_groups_untouched() {
    let mut b = empty_board();
    b.set_cell((0, 0), Some(7));
    b.set_cell((0, 1), Some(7));
    // (5,5) shares no row, column, or box with the duplicates
    b.set_cell((5, 5), Some(7));
    assert_eq!(b.at((5, 5)), Cell::Good(7));
    for i in 0..81 {
        let (r, c) = (i / 9, i % 9);
        if (r, c) != (0, 0) && (r, c) != (0, 1) && (r, c) != (5, 5) {
            assert_eq!(b.cell_at(i), Cell::Empty);
        }
    }
}

#[test]
fn duplicate_in_column_marks_the_column() {
    let mut b = empty_board();
    b.set_cell((1, 4), Some(2));
    b.set_cell((7, 4), Some(2));
    b.set_cell((3, 4), Some(9));
    assert_eq!(b.at((1, 4)), Cell::Bad(2));
    assert_eq!(b.at((7, 4)), Cell::Bad(2));
    assert_eq!(b.at((3, 4)), Cell::Bad(9));
    assert!(!b.can_solve());
}

#[test]
fn duplicate_in_box_marks_the_box() {
    let mut b = empty_board();
    // (0,0) and (1,1) share the top-left box but no row or column
    b.set_cell((0, 0), Some(4));
    b.set_cell((1, 1), Some(4));
    b.set_cell((2, 2), Some(6));
    assert_eq!(b.at((0, 0)), Cell::Bad(4));
    assert_eq!(b.at((1, 1)), Cell::Bad(4));
    assert_eq!(b.at((2, 2)), Cell::Bad(6));
    // same value in another box of the same band, different row/column
    b.set_cell((4, 3), Some(4));
    assert_eq!(b.at((4, 3)), Cell::Good(4));
}

#[test]
fn removing_a_duplicate_restores_consistency() {
    let mut b = empty_board();
    b.set_cell((0, 0), Some(7));
    b.set_cell((0, 1), Some(7));
    assert!(!b.can_solve());
    b.set_cell((0, 1), None);
    assert_eq!(b.at((0, 0)), Cell::Good(7));
    assert_eq!(b.at((0, 1)), Cell::Empty);
    assert!(b.can_solve());
}

#[test]
fn clear_all_empties_every_cell() {
    let mut b = empty_board();
    b.set_cell((0, 0), Some(1));
    b.set_cell((8, 8), Some(9));
    b.clear_all();
    for i in 0..81 {
        assert_eq!(b.cell_at(i), Cell::Empty);
    }
}

#[test]
fn clear_maybe_removes_only_solver_cells() {
    let mut b = empty_board();
    b.set_cell((0, 0), Some(1));
    b.init_maybe();
    b.collapse(1, 2);
    assert!(matches!(b.cell_at(1), Cell::Collapsed(2)));
    b.clear_maybe();
    assert_eq!(b.at((0, 0)), Cell::Good(1));
    for i in 1..81 {
        assert_eq!(b.cell_at(i), Cell::Empty);
    }
}

#[test]
fn seed_candidates_excludes_group_values() {
    let mut b = empty_board();
    b.set_cell((0, 0), Some(5));
    b.set_cell((4, 1), Some(3));
    b.init_maybe();
    // (0,1) shares a row and a box with the 5 and a column with the 3
    let c = b.at((0, 1));
    assert!(c.is_maybe());
    assert!(!c.maybe_get_num(5));
    assert!(!c.maybe_get_num(3));
    for v in [1, 2, 4, 6, 7, 8, 9] {
        assert!(c.maybe_get_num(v));
    }
    assert_eq!(c.entropy(), 7);
    assert_eq!(c.maybe_values(), vec![1, 2, 4, 6, 7, 8, 9]);
    // a cell sharing no group with either value keeps all nine candidates
    let far = b.at((7, 6));
    assert_eq!(far.entropy(), 9);
    assert_eq!(far.maybe_values(), vec![1, 2, 3, 4, 5, 6, 7, 8, 9]);
    // concrete cells are left alone
    assert_eq!(b.at((0, 0)), Cell::Good(5));
}

#[test]
fn collapse_propagates_to_row_column_and_box() {
    let mut b = empty_board();
    b.init_maybe();
    // collapse (4,4), the centre cell
    b.collapse(4 * 9 + 4, 8);
    assert_eq!(b.at((4, 4)), Cell::Collapsed(8));
    for i in 0..9 {
        if i != 4 {
            assert!(!b.at((4, i)).maybe_get_num(8), "row peer kept the value");
            assert!(!b.at((i, 4)).maybe_get_num(8), "column peer kept the value");
        }
    }
    for r in 3..6 {
        for c in 3..6 {
            if (r, c) != (4, 4) {
                assert!(!b.at((r, c)).maybe_get_num(8), "box peer kept the value");
            }
        }
    }
    // cells outside all three groups are untouched: all nine candidates
    assert_eq!(b.at((0, 1)).entropy(), 9);
    assert!(b.at((0, 1)).maybe_get_num(8));
    // other candidates of the peers survive
    for v in 1..8 {
        assert!(b.at((4, 0)).maybe_get_num(v));
    }
}

#[test]
fn maybe_unset_touches_only_candidate_cells() {
    let mut c = Cell::Maybe(0b10_u16 | 0b100_u16);
    c.maybe_unset(1);
    assert!(!c.maybe_get_num(1));
    assert!(c.maybe_get_num(2));
    let mut g = Cell::Good(4);
    g.maybe_unset(4);
    assert_eq!(g, Cell::Good(4));
}

#[test]
fn entropy_counts_candidates() {
    let c = Cell::Maybe(0b11_1111_1110);
    assert_eq!(c.entropy(), 9);
    let c2 = Cell::Maybe(0);
    assert_eq!(c2.entropy(), 0);
    assert_eq!(c2.maybe_values(), Vec::<u8>::new());
}

fn rows_of(text: &str) -> Vec<Vec<char>> {
    text.lines().map(|l| l.chars().collect()).collect()
}

#[test]
fn from_rows_reads_digits_and_spaces() {
    let rows = rows_of("53 \n 7\n");
    let b = Board::from_rows(&rows).unwrap();
    assert_eq!(b.at((0, 0)), Cell::Good(5));
    assert_eq!(b.at((0, 1)), Cell::Good(3));
    assert_eq!(b.at((0, 2)), Cell::Empty);
    assert_eq!(b.at((1, 0)), Cell::Empty);
    assert_eq!(b.at((1, 1)), Cell::Good(7));
    assert!(b.can_solve());
}

#[test]
fn from_rows_runs_the_consistency_pass() {
    let rows = rows_of("77\n");
    let b = Board::from_rows(&rows).unwrap();
    assert_eq!(b.at((0, 0)), Cell::Bad(7));
    assert_eq!(b.at((0, 1)), Cell::Bad(7));
    assert!(!b.can_solve());
}

#[test]
fn from_rows_rejects_a_digit_past_nine_columns() {
    let rows = rows_of("          3\n");
    assert!(matches!(Board::from_rows(&rows), Err(ParseError::OutOfRange)));
}

#[test]
fn from_rows_rejects_a_digit_past_nine_lines() {
    let mut text = String::new();
    for _ in 0..9 {
        text.push('\n');
    }
    text.push_str("1\n");
    let rows = rows_of(&text);
    assert!(matches!(Board::from_rows(&rows), Err(ParseError::OutOfRange)));
}

#[test]
fn from_rows_allows_trailing_spaces_past_the_grid() {
    let rows = rows_of("            \n\n\n\n\n\n\n\n\n      \n");
    let b = Board::from_rows(&rows).unwrap();
    for i in 0..81 {
        assert_eq!(b.cell_at(i), Cell::Empty);
    }
}

#[test]
fn from_rows_rejects_other_characters() {
    let rows = rows_of("5x\n");
    assert!(matches!(Board::from_rows(&rows), Err(ParseError::UnexpectedChar('x'))));
    let rows0 = rows_of("50\n");
    assert!(matches!(Board::from_rows(&rows0), Err(ParseError::UnexpectedChar('0'))));
}

#[test]
fn from_rows_reports_the_first_offence() {
    let rows = rows_of(" x\n          3\n");
    assert!(matches!(Board::from_rows(&rows), Err(ParseError::UnexpectedChar('x'))));
}
