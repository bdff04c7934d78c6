use sudoku_wfc::{App, Board, Cell, InputEvent, Mode, Notice, TickCtl, Ui};

fn cursor(app: &App) -> (usize, usize) {
    match &app.mode {
        Mode::Editing(st) => st.set_cursor(),
        Mode::Solving(_) => panic!("no cursor while solving"),
    }
}

fn is_solving(app: &App) -> bool {
    matches!(app.mode, Mode::Solving(_))
}

#[test]
fn new_app_starts_editing_with_help_shown() {
    let app = App::new();
    assert_eq!(cursor(&app), (0, 0));
    assert!(app.ui.has((0, 39)));
    assert!(!app.ui.has((0, 38)));
    assert!(app.board.can_solve());
}

#[test]
fn movement_wraps_around_the_grid() {
    let mut app = App::new();
    app.handle_key_event(InputEvent::MoveUp);
    assert_eq!(cursor(&app), (8, 0));
    app.handle_key_event(InputEvent::MoveDown);
    assert_eq!(cursor(&app), (0, 0));
    app.handle_key_event(InputEvent::MoveLeft);
    assert_eq!(cursor(&app), (0, 8));
    app.handle_key_event(InputEvent::MoveRight);
    assert_eq!(cursor(&app), (0, 0));
    for _ in 0..9 {
        app.handle_key_event(InputEvent::MoveRight);
    }
    assert_eq!(cursor(&app), (0, 0));
}

#[test]
fn next_cell_walks_row_major() {
    let mut app = App::new();
    for _ in 0..8 {
        app.handle_key_event(InputEvent::NextCell);
    }
    assert_eq!(cursor(&app), (0, 8));
    app.handle_key_event(InputEvent::NextCell);
    assert_eq!(cursor(&app), (1, 0));
    for _ in 0..72 {
        app.handle_key_event(InputEvent::NextCell);
    }
    assert_eq!(cursor(&app), (0, 0));
}

#[test]
fn digits_edit_the_selected_cell() {
    let mut app = App::new();
    app.handle_key_event(InputEvent::Digit(4));
    assert_eq!(app.board.at((0, 0)), Cell::Good(4));
    app.handle_key_event(InputEvent::ClearCell);
    assert_eq!(app.board.at((0, 0)), Cell::Empty);
}

#[test]
fn quit_reports_exit_without_touching_state() {
    let mut app = App::new();
    app.handle_key_event(InputEvent::Digit(2));
    let (exit, ctl) = app.handle_key_event(InputEvent::Quit);
    assert!(exit);
    assert_eq!(ctl, None);
    assert_eq!(app.board.at((0, 0)), Cell::Good(2));
}

#[test]
fn invalid_board_rejects_the_solve_request() {
    let mut app = App::new();
    app.handle_key_event(InputEvent::Digit(7));
    app.handle_key_event(InputEvent::MoveRight);
    app.handle_key_event(InputEvent::Digit(7));
    assert!(!app.board.can_solve());
    assert_eq!(app.board.at((0, 0)), Cell::Bad(7));
    assert_eq!(app.board.at((0, 1)), Cell::Bad(7));
    let (exit, ctl) = app.handle_key_event(InputEvent::StartSolve);
    assert!(!exit);
    assert_eq!(ctl, None);
    assert!(!is_solving(&app));
    assert!(app.ui.has((0, 38)));
}

#[test]
fn solve_request_seeds_and_starts_the_ticker() {
    let mut app = App::new();
    app.handle_key_event(InputEvent::Digit(3));
    let (exit, ctl) = app.handle_key_event(InputEvent::StartSolve);
    assert!(!exit);
    assert_eq!(ctl, Some(TickCtl::Start));
    assert!(is_solving(&app));
    assert!(app.board.at((0, 1)).is_maybe());
    assert_eq!(app.board.at((0, 0)), Cell::Good(3));
}

#[test]
fn ticks_drive_the_solve_to_completion() {
    let mut app = App::new();
    app.handle_key_event(InputEvent::Digit(6));
    app.handle_key_event(InputEvent::StartSolve);
    let mut stopped = false;
    for _ in 0..1_000_000 {
        match app.handle_tick_event() {
            None => continue,
            Some(TickCtl::Stop) => {
                stopped = true;
                break;
            }
            Some(TickCtl::Start) => panic!("a tick may not start the ticker"),
        }
    }
    assert!(stopped, "the solve did not finish");
    assert!(!is_solving(&app));
    assert_eq!(cursor(&app), (0, 0));
    assert!(app.ui.has((0, 38)));
    assert_eq!(app.board.at((0, 0)), Cell::Good(6));
    for i in 0..81 {
        assert!(app.board.cell_at(i).value().is_some());
    }
}

#[test]
fn impossible_solve_resets_the_solver_cells() {
    let mut app = App::new();
    // leave (0,8) without any candidate
    for c in 0..8 {
        app.board.set_cell((0, c), Some(c as u8 + 1));
    }
    app.board.set_cell((1, 8), Some(9));
    let (_, ctl) = app.handle_key_event(InputEvent::StartSolve);
    assert_eq!(ctl, Some(TickCtl::Start));
    let mut ctl = None;
    for _ in 0..1_000_000 {
        ctl = app.handle_tick_event();
        if ctl.is_some() {
            break;
        }
    }
    assert_eq!(ctl, Some(TickCtl::Stop));
    assert!(!is_solving(&app));
    assert!(app.ui.has((0, 38)));
    // the user-entered values survive, the solver cells are gone
    assert_eq!(app.board.at((0, 0)), Cell::Good(1));
    assert_eq!(app.board.at((0, 8)), Cell::Empty);
    for i in 0..81 {
        assert!(!app.board.cell_at(i).is_maybe());
        assert!(!matches!(app.board.cell_at(i), Cell::Collapsed(_)));
    }
}

#[test]
fn clearing_cancels_a_running_solve() {
    let mut app = App::new();
    app.handle_key_event(InputEvent::Digit(5));
    app.handle_key_event(InputEvent::StartSolve);
    assert!(is_solving(&app));
    let (_, ctl) = app.handle_key_event(InputEvent::ClearSolved);
    assert_eq!(ctl, Some(TickCtl::Stop));
    assert!(!is_solving(&app));
    assert_eq!(app.board.at((0, 0)), Cell::Good(5));
    for i in 1..81 {
        assert_eq!(app.board.cell_at(i), Cell::Empty);
    }
}

#[test]
fn clear_all_wipes_the_whole_board() {
    let mut app = App::new();
    app.handle_key_event(InputEvent::Digit(5));
    let (_, ctl) = app.handle_key_event(InputEvent::ClearAll);
    assert_eq!(ctl, Some(TickCtl::Stop));
    for i in 0..81 {
        assert_eq!(app.board.cell_at(i), Cell::Empty);
    }
}

#[test]
fn edits_are_ignored_while_solving() {
    let mut app = App::new();
    app.handle_key_event(InputEvent::Digit(9));
    app.handle_key_event(InputEvent::StartSolve);
    assert!(is_solving(&app));
    let (exit, ctl) = app.handle_key_event(InputEvent::Digit(1));
    assert!(!exit);
    assert_eq!(ctl, None);
    assert!(is_solving(&app));
    assert_eq!(app.board.at((0, 0)), Cell::Good(9));
    let (_, ctl2) = app.handle_key_event(InputEvent::StartSolve);
    assert_eq!(ctl2, None);
    assert!(is_solving(&app));
}

#[test]
fn stale_ticks_are_ignored_while_editing() {
    let mut app = App::new();
    app.handle_key_event(InputEvent::Digit(8));
    assert_eq!(app.handle_tick_event(), None);
    assert_eq!(app.board.at((0, 0)), Cell::Good(8));
    assert!(!is_solving(&app));
}

#[test]
fn help_notice_toggles() {
    let mut app = App::new();
    assert!(app.ui.has((0, 39)));
    app.handle_key_event(InputEvent::ToggleHelp);
    assert!(!app.ui.has((0, 39)));
    app.handle_key_event(InputEvent::ToggleHelp);
    assert!(app.ui.has((0, 39)));
}

#[test]
fn notice_registry_adds_replaces_and_removes() {
    let mut ui = Ui::default();
    assert!(!ui.has((0, 38)));
    ui.add_msg((0, 38), Notice::Solved);
    assert!(ui.has((0, 38)));
    // a second notice at the same position replaces the first
    ui.add_msg((0, 38), Notice::NoSolution);
    assert_eq!(ui.msgs.len(), 1);
    assert_eq!(ui.msgs[0], ((0, 38), Notice::NoSolution));
    ui.add_msg((0, 39), Notice::Help);
    assert_eq!(ui.msgs.len(), 2);
    ui.remove_msg((0, 38));
    assert!(!ui.has((0, 38)));
    assert!(ui.has((0, 39)));
    // removing an absent position changes nothing
    ui.remove_msg((5, 5));
    assert_eq!(ui.msgs.len(), 1);
}

#[test]
fn with_board_keeps_the_loaded_values() {
    let rows: Vec<Vec<char>> = "  6\n 2\n".lines().map(|l| l.chars().collect()).collect();
    let board = Board::from_rows(&rows).unwrap();
    let app = App::with_board(board);
    assert_eq!(app.board.at((0, 2)), Cell::Good(6));
    assert_eq!(app.board.at((1, 1)), Cell::Good(2));
    assert_eq!(cursor(&app), (0, 0));
}
