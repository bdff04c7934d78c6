use sudoku_wfc::{Board, Cell, StepResult, Wfc};

fn count_collapsed(b: &Board) -> usize {
    (0..81)
        .filter(|&i| matches!(b.cell_at(i), Cell::Collapsed(_)))
        .count()
}

fn count_maybe(b: &Board) -> usize {
    (0..81).filter(|&i| b.cell_at(i).is_maybe()).count()
}

fn concrete(b: &Board, i: usize) -> u8 {
    b.cell_at(i)
        .value()
        .expect("cell holds no concrete value")
}

/// Every row, column, and box holds each value 1..=9 exactly once.
fn assert_solved(b: &Board) {
    assert_eq!(count_maybe(b), 0);
    for g in 0..9 {
        let mut row = [false; 10];
        let mut col = [false; 10];
        let mut boxx = [false; 10];
        for k in 0..9 {
            row[concrete(b, g * 9 + k) as usize] = true;
            col[concrete(b, k * 9 + g) as usize] = true;
            let i = ((g / 3) * 3 + k / 3) * 9 + (g % 3) * 3 + k % 3;
            boxx[concrete(b, i) as usize] = true;
        }
        for v in 1..10 {
            assert!(row[v], "row {} misses {}", g, v);
            assert!(col[v], "column {} misses {}", g, v);
            assert!(boxx[v], "box {} misses {}", g, v);
        }
    }
}

fn solve(wfc: &mut Wfc) -> StepResult {
    for _ in 0..1_000_000 {
        match wfc.step() {
            StepResult::InProgress(_) => continue,
            done => return done,
        }
    }
    panic!("the solver did not terminate within the step budget");
}

#[test]
fn empty_board_solves_to_a_full_valid_grid() {
    let mut b = Board::default();
    b.init_maybe();
    let mut wfc = Wfc::default();
    wfc.init(b);
    match solve(&mut wfc) {
        StepResult::Complete(solution) => assert_solved(&solution),
        _ => panic!("expected a completed board"),
    }
}

#[test]
fn prefilled_board_solves_and_keeps_the_given_values() {
    let mut b = Board::default();
    b.set_cell((0, 0), Some(5));
    b.set_cell((3, 4), Some(2));
    b.set_cell((8, 8), Some(9));
    assert!(b.can_solve());
    b.init_maybe();
    let mut wfc = Wfc::default();
    wfc.init(b);
    match solve(&mut wfc) {
        StepResult::Complete(solution) => {
            assert_solved(&solution);
            assert_eq!(solution.at((0, 0)), Cell::Good(5));
            assert_eq!(solution.at((3, 4)), Cell::Good(2));
            assert_eq!(solution.at((8, 8)), Cell::Good(9));
        }
        _ => panic!("expected a completed board"),
    }
}

#[test]
fn unsatisfiable_board_reports_impossible() {
    // (0,8) sees 1..=8 in its row and 9 in its column: no candidate at all
    let mut b = Board::default();
    for c in 0..8 {
        b.set_cell((0, c), Some(c as u8 + 1));
    }
    b.set_cell((1, 8), Some(9));
    assert!(b.can_solve());
    b.init_maybe();
    assert_eq!(b.at((0, 8)).entropy(), 0);
    let mut wfc = Wfc::default();
    wfc.init(b);
    assert!(matches!(solve(&mut wfc), StepResult::Impossible));
}

#[test]
fn one_step_collapses_exactly_one_cell() {
    let mut b = Board::default();
    b.set_cell((0, 0), Some(5));
    b.init_maybe();
    assert_eq!(count_maybe(&b), 80);
    let mut wfc = Wfc::default();
    wfc.init(b);
    match wfc.step() {
        StepResult::InProgress(next) => {
            assert_eq!(count_collapsed(&next), 1);
            assert_eq!(count_maybe(&next), 79);
            // the minimum-entropy cell: the first cell that sees the 5,
            // which is (0,1) with 8 candidates against 9 elsewhere
            assert!(matches!(next.cell_at(1), Cell::Collapsed(_)));
            assert_ne!(next.cell_at(1), Cell::Collapsed(5));
        }
        _ => panic!("expected the search to continue"),
    }
}

#[test]
fn step_at_collapses_the_given_cell_and_value() {
    let mut b = Board::default();
    b.init_maybe();
    let mut wfc = Wfc::default();
    wfc.init(b);
    match wfc.step_at(40, Some(7)) {
        StepResult::InProgress(next) => {
            assert_eq!(next.cell_at(40), Cell::Collapsed(7));
            assert!(!next.cell_at(39).maybe_get_num(7));
            assert!(next.cell_at(0).maybe_get_num(7));
        }
        _ => panic!("expected the search to continue"),
    }
}

#[test]
fn a_tried_value_is_removed_from_the_parent_snapshot() {
    let mut b = Board::default();
    b.init_maybe();
    let mut wfc = Wfc::default();
    wfc.init(b);
    let _ = wfc.step_at(40, Some(7));
    assert_eq!(wfc.stack.len(), 2);
    let parent = &wfc.stack[0];
    assert!(!parent.cell_at(40).maybe_get_num(7), "the parent would retry 7");
    for v in [1, 2, 3, 4, 5, 6, 8, 9] {
        assert!(parent.cell_at(40).maybe_get_num(v));
    }
    assert_eq!(parent.cell_at(40).entropy(), 8);
    // the parent's other cells are untouched
    assert_eq!(parent.cell_at(39).entropy(), 9);
}

#[test]
fn popping_the_last_snapshot_is_impossible() {
    // the cell without candidates has minimum entropy, so the very first
    // step pops the only snapshot and the trail runs dry
    let mut b = Board::default();
    for c in 0..8 {
        b.set_cell((0, c), Some(c as u8 + 1));
    }
    b.set_cell((1, 8), Some(9));
    b.init_maybe();
    let mut wfc = Wfc::default();
    wfc.init(b);
    match wfc.step() {
        StepResult::Impossible => {}
        _ => panic!("an exhausted single-snapshot trail must be impossible"),
    }
    assert_eq!(wfc.stack.len(), 0);
}

#[test]
fn completed_board_is_reported_without_change() {
    // a board with no candidate cells at all is already complete
    let mut b = Board::default();
    b.set_cell((0, 0), Some(1));
    let mut wfc = Wfc::default();
    wfc.init(b);
    match wfc.step() {
        StepResult::Complete(done) => {
            assert_eq!(done.at((0, 0)), Cell::Good(1));
            assert_eq!(count_maybe(&done), 0);
        }
        _ => panic!("expected completion"),
    }
    assert_eq!(wfc.stack.len(), 1);
}
