//! The interaction state machine: editing versus solving, one transition per
//! key event or timer tick.
//!
//! The machine owns the board, the solver, and the notice registry.  It
//! performs no input or output itself: callers decode key presses into
//! [`InputEvent`]s, deliver timer ticks, and act on the returned
//! [`TickCtl`] commands for the periodic tick source.

use crate::board::{
    clear_solver_spec, dups_flagged, edit_ok, in_grid, lemma_clear_solver_keeps_edit_ok,
    lemma_flagged_no_dup, lemma_set_cell_keeps_edit_ok, no_dup, recheck, same_group, seeded_board,
    values_in_range, Board, Cell,
};
use crate::ui::{Notice, Ui};
use crate::wfc::{
    board_done, choice_ok, is_best_choice, lemma_seed_solver_ok, solver_ok, step_at_post,
    step_post, trail_depths_ok, trail_measure, StepResult, Wfc,
};
use vstd::prelude::*;

verus! {

/// A decoded user action, free of any key-binding details.
#[derive(Clone, Copy, PartialEq, Eq, Structural, Debug)]
pub enum InputEvent {
    MoveUp,
    MoveDown,
    MoveLeft,
    MoveRight,
    NextCell,
    Digit(u8),
    ClearCell,
    StartSolve,
    ClearSolved,
    ClearAll,
    Quit,
    ToggleHelp,
}

/// A command for the periodic tick source.
#[derive(Clone, Copy, PartialEq, Eq, Structural, Debug)]
pub enum TickCtl {
    Start,
    Stop,
}

/// Editing-mode state: the cursor position on the board.
#[derive(Clone, Copy)]
pub struct InputState {
    pub selected: (usize, usize),
}

impl Default for InputState {
    fn default() -> (r: Self)
        ensures
            r.selected.0 == 0 && r.selected.1 == 0,
    {
        InputState { selected: (0, 0) }
    }
}

impl InputState {
    /// Where the terminal cursor should sit while editing.
    pub fn set_cursor(&self) -> (r: (usize, usize))
        ensures
            r == self.selected,
    {
        self.selected
    }
}

/// Solving-mode marker.  Creating it seeds the board and hands it to the
/// solver; the caller must start the tick source.
#[derive(Clone, Copy)]
pub struct SolveState {}

impl SolveState {
    /// Begin a solve: seed the board's empty cells with candidates and reset
    /// the solver trail to that board.
    pub fn new(board: &mut Board, wfc: &mut Wfc) -> (s: SolveState)
        ensures
            seeded_board(old(board)@, final(board)@),
            final(wfc).trail() == seq![final(board)@],
            (no_dup(old(board)@) && values_in_range(old(board)@) && (forall|i: int|
                in_grid(i) ==> !(#[trigger] old(board)@[i] is Maybe))) ==> final(wfc).inv(),
    {
        board.init_maybe();
        wfc.init(*board);
        proof {
            if no_dup(old(board)@) && values_in_range(old(board)@) && (forall|i: int|
                in_grid(i) ==> !(#[trigger] old(board)@[i] is Maybe)) {
                lemma_seed_solver_ok(old(board)@, board@);
            }
        }
        SolveState {}
    }
}

/// The two interaction modes.
#[derive(Clone, Copy)]
pub enum Mode {
    Editing(InputState),
    Solving(SolveState),
}

/// Cursor movement with wrap-around on the 9x9 grid; non-movement events
/// leave the cursor alone.
pub open spec fn move_cursor(sel: (usize, usize), e: InputEvent) -> (usize, usize) {
    match e {
        InputEvent::MoveUp => (
            if sel.0 == 0 {
                8usize
            } else {
                (sel.0 - 1) as usize
            },
            sel.1,
        ),
        InputEvent::MoveDown => (
            if sel.0 == 8 {
                0usize
            } else {
                (sel.0 + 1) as usize
            },
            sel.1,
        ),
        InputEvent::MoveLeft => (
            sel.0,
            if sel.1 == 0 {
                8usize
            } else {
                (sel.1 - 1) as usize
            },
        ),
        InputEvent::MoveRight => (
            sel.0,
            if sel.1 == 8 {
                0usize
            } else {
                (sel.1 + 1) as usize
            },
        ),
        InputEvent::NextCell => if sel.1 == 8 {
            (
                if sel.0 == 8 {
                    0usize
                } else {
                    (sel.0 + 1) as usize
                },
                0usize,
            )
        } else {
            (sel.0, (sel.1 + 1) as usize)
        },
        _ => sel,
    }
}

/// True for the five cursor-movement events.
pub open spec fn is_movement(e: InputEvent) -> bool {
    e is MoveUp || e is MoveDown || e is MoveLeft || e is MoveRight || e is NextCell
}

/// The whole interactive application.
pub struct App {
    pub board: Board,
    pub wfc: Wfc,
    pub ui: Ui,
    pub mode: Mode,
}

impl App {
    /// The machine's invariant: a well-formed notice registry and, while
    /// editing, a valid cursor on a board whose duplicates are all flagged;
    /// while solving, a non-empty trail of well-formed mid-solve snapshots
    /// and a committed board that is itself such a snapshot.
    pub open spec fn wf(self) -> bool {
        self.ui.wf() && match self.mode {
            Mode::Editing(st) => st.selected.0 < 9 && st.selected.1 < 9 && edit_ok(self.board@),
            Mode::Solving(_) => self.wfc.stack@.len() > 0 && self.wfc.inv() && trail_depths_ok(
                self.wfc.trail(),
            ) && solver_ok(self.board@),
        }
    }

    /// A fresh application: empty board, editing mode, cursor at the
    /// top-left corner, help notice shown.
    pub fn new() -> (r: Self)
        ensures
            r.wf(),
            forall|i: int| in_grid(i) ==> r.board@[i] == Cell::Empty,
            r.wfc.stack@.len() == 0,
            r.mode matches Mode::Editing(st) && st.selected == (0usize, 0usize),
            r.ui.stores((0, 39), Notice::Help),
            forall|p: (u16, u16)| p != (0u16, 39u16) ==> !r.ui.has_at(p),
    {
        let mut s = App {
            board: Board::default(),
            wfc: Wfc::default(),
            ui: Ui::default(),
            mode: Mode::Editing(InputState::default()),
        };
        proof {
            assert(edit_ok(s.board@));
        }
        s.ui.add_msg((0, 39), Notice::Help);
        s
    }

    /// Like [`App::new`], but starting from a loaded board (as
    /// [`Board::from_rows`] produces it).
    pub fn with_board(board: Board) -> (r: Self)
        requires
            edit_ok(board@),
        ensures
            r.wf(),
            r.board == board,
            r.wfc.stack@.len() == 0,
            r.mode matches Mode::Editing(st) && st.selected == (0usize, 0usize),
            r.ui.stores((0, 39), Notice::Help),
            forall|p: (u16, u16)| p != (0u16, 39u16) ==> !r.ui.has_at(p),
    {
        let mut s = App {
            board,
            wfc: Wfc::default(),
            ui: Ui::default(),
            mode: Mode::Editing(InputState::default()),
        };
        s.ui.add_msg((0, 39), Notice::Help);
        s
    }

    /// React to one decoded key event.  Returns whether the application
    /// should exit, and a command for the tick source if its state must
    /// change.  Board edits, cursor movement, and solve requests are only
    /// honoured while editing; clearing, quitting, and the help toggle work
    /// in either mode.
    pub fn handle_key_event(&mut self, e: InputEvent) -> (r: (bool, Option<TickCtl>))
        requires
            old(self).wf(),
            e matches InputEvent::Digit(d) ==> 1 <= d <= 9,
        ensures
            final(self).wf(),
            r.0 == (e is Quit),
            e is Quit ==> *final(self) == *old(self) && r.1 == None::<TickCtl>,
            is_movement(e) ==> ({
                &&& final(self).board == old(self).board
                &&& final(self).wfc == old(self).wfc
                &&& final(self).ui == old(self).ui
                &&& r.1 == None::<TickCtl>
                &&& (match old(self).mode {
                    Mode::Editing(st) => final(self).mode matches Mode::Editing(st2) && st2.selected
                        == move_cursor(st.selected, e),
                    Mode::Solving(_) => final(self).mode == old(self).mode,
                })
            }),
            e matches InputEvent::Digit(d) ==> ({
                &&& r.1 == None::<TickCtl>
                &&& (match old(self).mode {
                    Mode::Editing(st) => final(self).board@ == recheck(
                        old(self).board@.update(
                            st.selected.0 * 9 + st.selected.1,
                            Cell::Good(d),
                        ),
                    ) && final(self).mode == old(self).mode && final(self).ui == old(self).ui
                        && final(self).wfc == old(self).wfc,
                    Mode::Solving(_) => *final(self) == *old(self),
                })
            }),
            e is ClearCell ==> ({
                &&& r.1 == None::<TickCtl>
                &&& (match old(self).mode {
                    Mode::Editing(st) => final(self).board@ == recheck(
                        old(self).board@.update(st.selected.0 * 9 + st.selected.1, Cell::Empty),
                    ) && final(self).mode == old(self).mode && final(self).ui == old(self).ui
                        && final(self).wfc == old(self).wfc,
                    Mode::Solving(_) => *final(self) == *old(self),
                })
            }),
            e is StartSolve ==> (match old(self).mode {
                Mode::Editing(st) => ({
                    if forall|i: int| in_grid(i) ==> !(#[trigger] old(self).board@[i] is Bad) {
                        &&& seeded_board(old(self).board@, final(self).board@)
                        &&& final(self).wfc.trail() == seq![final(self).board@]
                        &&& trail_depths_ok(final(self).wfc.trail())
                        &&& final(self).mode is Solving
                        &&& final(self).ui == old(self).ui
                        &&& r.1 == Some(TickCtl::Start)
                        &&& final(self).wfc.inv()
                        &&& solver_ok(final(self).board@)
                    } else {
                        &&& final(self).board == old(self).board
                        &&& final(self).wfc == old(self).wfc
                        &&& final(self).mode == old(self).mode
                        &&& final(self).ui.stores((0, 38), Notice::InvalidBoard)
                        &&& (forall|p: (u16, u16), m: Notice|
                            p != (0u16, 38u16) ==> final(self).ui.stores(p, m) == old(self).ui.stores(p, m))
                        &&& r.1 == None::<TickCtl>
                    }
                }),
                Mode::Solving(_) => *final(self) == *old(self) && r.1 == None::<TickCtl>,
            }),
            e is ClearSolved ==> ({
                &&& final(self).board@ == clear_solver_spec(old(self).board@)
                &&& final(self).wfc == old(self).wfc
                &&& final(self).ui == old(self).ui
                &&& r.1 == Some(TickCtl::Stop)
                &&& (match old(self).mode {
                    Mode::Editing(st) => final(self).mode matches Mode::Editing(st2) && st2.selected
                        == st.selected,
                    Mode::Solving(_) => final(self).mode matches Mode::Editing(st2) && st2.selected
                        == (0usize, 0usize),
                })
            }),
            e is ClearAll ==> ({
                &&& (forall|i: int| in_grid(i) ==> final(self).board@[i] == Cell::Empty)
                &&& final(self).wfc == old(self).wfc
                &&& final(self).ui == old(self).ui
                &&& r.1 == Some(TickCtl::Stop)
                &&& (match old(self).mode {
                    Mode::Editing(st) => final(self).mode matches Mode::Editing(st2) && st2.selected
                        == st.selected,
                    Mode::Solving(_) => final(self).mode matches Mode::Editing(st2) && st2.selected
                        == (0usize, 0usize),
                })
            }),
            e is ToggleHelp ==> ({
                &&& final(self).board == old(self).board
                &&& final(self).wfc == old(self).wfc
                &&& final(self).mode == old(self).mode
                &&& r.1 == None::<TickCtl>
                &&& (old(self).ui.has_at((0, 39)) ==> !final(self).ui.has_at((0, 39)))
                &&& (!old(self).ui.has_at((0, 39)) ==> final(self).ui.stores((0, 39), Notice::Help))
                &&& (forall|p: (u16, u16), m: Notice|
                    p != (0u16, 39u16) ==> final(self).ui.stores(p, m) == old(self).ui.stores(
                        p,
                        m,
                    ))
            }),
    {
        match e {
            InputEvent::Quit => (true, None),
            InputEvent::MoveUp
            | InputEvent::MoveDown
            | InputEvent::MoveLeft
            | InputEvent::MoveRight
            | InputEvent::NextCell => {
                if let Mode::Editing(st) = self.mode {
                    let sel = st.selected;
                    let newsel: (usize, usize) = match e {
                        InputEvent::MoveUp => (
                            if sel.0 == 0 {
                                8
                            } else {
                                sel.0 - 1
                            },
                            sel.1,
                        ),
                        InputEvent::MoveDown => (
                            if sel.0 == 8 {
                                0
                            } else {
                                sel.0 + 1
                            },
                            sel.1,
                        ),
                        InputEvent::MoveLeft => (
                            sel.0,
                            if sel.1 == 0 {
                                8
                            } else {
                                sel.1 - 1
                            },
                        ),
                        InputEvent::MoveRight => (
                            sel.0,
                            if sel.1 == 8 {
                                0
                            } else {
                                sel.1 + 1
                            },
                        ),
                        _ => {
                            if sel.1 == 8 {
                                (
                                    if sel.0 == 8 {
                                        0
                                    } else {
                                        sel.0 + 1
                                    },
                                    0,
                                )
                            } else {
                                (sel.0, sel.1 + 1)
                            }
                        },
                    };
                    self.mode = Mode::Editing(InputState { selected: newsel });
                }
                (false, None)
            },
            InputEvent::Digit(d) => {
                if let Mode::Editing(st) = self.mode {
                    proof {
                        lemma_set_cell_keeps_edit_ok(
                            self.board@,
                            st.selected.0 * 9 + st.selected.1,
                            Cell::Good(d),
                        );
                    }
                    self.board.set_cell(st.selected, Some(d));
                }
                (false, None)
            },
            InputEvent::ClearCell => {
                if let Mode::Editing(st) = self.mode {
                    proof {
                        lemma_set_cell_keeps_edit_ok(
                            self.board@,
                            st.selected.0 * 9 + st.selected.1,
                            Cell::Empty,
                        );
                    }
                    self.board.set_cell(st.selected, None);
                }
                (false, None)
            },
            InputEvent::StartSolve => {
                if let Mode::Editing(_) = self.mode {
                    if !self.board.can_solve() {
                        self.ui.add_msg((0, 38), Notice::InvalidBoard);
                        (false, None)
                    } else {
                        proof {
                            lemma_flagged_no_dup(self.board@);
                        }
                        let solve = SolveState::new(&mut self.board, &mut self.wfc);
                        self.mode = Mode::Solving(solve);
                        proof {
                            assert(self.wfc.trail().len() == 1);
                            assert(self.wfc.stack@.len() == 1);
                            assert(self.wfc.inv());
                            assert(self.wfc.trail()[0] == self.board@);
                            assert(solver_ok(self.board@));
                        }
                        (false, Some(TickCtl::Start))
                    }
                } else {
                    (false, None)
                }
            },
            InputEvent::ClearSolved => {
                proof {
                    let b = self.board@;
                    if self.mode is Solving {
                        assert forall|i: int, j: int|
                            #![trigger b[i], b[j]]
                            in_grid(i) && in_grid(j) && i != j && same_group(i, j)
                                && b[i].is_concrete() && b[i].value_spec()
                                == b[j].value_spec() implies b[i] is Bad || b[j] is Bad || (
                        b[i] is Collapsed && b[j] is Collapsed) by {
                            assert(b[i].value_spec() != b[j].value_spec());
                        }
                    }
                    lemma_clear_solver_keeps_edit_ok(b);
                }
                if let Mode::Solving(_) = self.mode {
                    self.mode = Mode::Editing(InputState::default());
                }
                self.board.clear_maybe();
                (false, Some(TickCtl::Stop))
            },
            InputEvent::ClearAll => {
                if let Mode::Solving(_) = self.mode {
                    self.mode = Mode::Editing(InputState::default());
                }
                self.board.clear_all();
                proof {
                    assert(edit_ok(self.board@));
                }
                (false, Some(TickCtl::Stop))
            },
            InputEvent::ToggleHelp => {
                if self.ui.has((0, 39)) {
                    self.ui.remove_msg((0, 39));
                } else {
                    self.ui.add_msg((0, 39), Notice::Help);
                }
                (false, None)
            },
        }
    }

    /// React to one timer tick: advance the solver by one step while
    /// solving, commit the resulting board, and leave solving mode (telling
    /// the tick source to stop) on completion or impossibility.  A stale
    /// tick received while editing is ignored.
    pub fn handle_tick_event(&mut self) -> (r: Option<TickCtl>)
        requires
            old(self).wf(),
        ensures
            final(self).wf(),
            old(self).mode is Editing ==> *final(self) == *old(self) && r == None::<TickCtl>,
            old(self).mode is Solving && !board_done(old(self).wfc.trail().last())
                ==> trail_measure(final(self).wfc.trail()) < trail_measure(old(self).wfc.trail()),
            old(self).mode is Solving ==> (exists|sr: StepResult|
                {
                    &&& #[trigger] step_post(old(self).wfc.trail(), final(self).wfc.trail(), sr)
                    &&& (old(self).wfc.inv() ==> final(self).wfc.inv())
                    &&& (match sr {
                        StepResult::Complete(b) => {
                            &&& final(self).board@ == b@
                            &&& board_done(b@)
                            &&& solver_ok(b@)
                            &&& final(self).mode matches Mode::Editing(st) && st.selected == (
                            0usize,
                            0usize,
                            )
                            &&& r == Some(TickCtl::Stop)
                            &&& final(self).ui.stores((0, 38), Notice::Solved)
                            &&& (forall|p: (u16, u16), m: Notice|
                                p != (0u16, 38u16) ==> final(self).ui.stores(p, m) == old(self).ui.stores(p, m))
                        },
                        StepResult::InProgress(b) => {
                            &&& final(self).board@ == b@
                            &&& final(self).mode is Solving
                            &&& final(self).ui == old(self).ui
                            &&& r == None::<TickCtl>
                        },
                        StepResult::Impossible => {
                            &&& final(self).board@ == clear_solver_spec(old(self).board@)
                            &&& final(self).mode matches Mode::Editing(st) && st.selected == (
                            0usize,
                            0usize,
                            )
                            &&& r == Some(TickCtl::Stop)
                            &&& final(self).ui.stores((0, 38), Notice::NoSolution)
                            &&& (forall|p: (u16, u16), m: Notice|
                                p != (0u16, 38u16) ==> final(self).ui.stores(p, m) == old(self).ui.stores(p, m))
                        },
                    })
                }),
    {
        if let Mode::Solving(_) = self.mode {
            let ghost t = self.wfc.trail();
            let res = self.wfc.step();
            match res {
                StepResult::Complete(b) => {
                    self.board = b;
                    proof {
                        let s = b@;
                        assert(solver_ok(s) && board_done(s));
                        assert forall|i: int, j: int|
                            #![trigger s[i], s[j]]
                            in_grid(i) && in_grid(j) && i != j && same_group(i, j)
                                && s[i].is_concrete() && s[i].value_spec()
                                == s[j].value_spec() implies false by {
                            assert(s[i].value_spec() != s[j].value_spec());
                        }
                        assert(edit_ok(s));
                    }
                    self.ui.add_msg((0, 38), Notice::Solved);
                    self.mode = Mode::Editing(InputState::default());
                    proof {
                        assert(step_post(old(self).wfc.trail(), self.wfc.trail(), res));
                    }
                    Some(TickCtl::Stop)
                },
                StepResult::InProgress(b) => {
                    self.board = b;
                    proof {
                        if !board_done(t.last()) {
                            let (ci, choice) = choose|ci: int, choice: Option<u8>|
                                is_best_choice(t.last(), ci) && #[trigger] choice_ok(
                                    t.last(),
                                    ci,
                                    choice,
                                ) && step_at_post(t, self.wfc.trail(), ci, choice, res);
                            match choice {
                                Some(v) => {
                                    assert(self.wfc.trail().len() == t.len() + 1);
                                    assert(self.wfc.trail().last() == b@);
                                },
                                None => {
                                    assert(t.len() > 1) by {
                                        if t.len() == 1 {
                                            assert(res is Impossible);
                                        }
                                    }
                                    assert(self.wfc.trail().last() == b@);
                                },
                            }
                        }
                        assert(solver_ok(b@)) by {
                            let n = self.wfc.trail().len();
                            assert(self.wfc.trail()[n - 1] == b@);
                        }
                    }
                    proof {
                        assert(step_post(old(self).wfc.trail(), self.wfc.trail(), res));
                    }
                    None
                },
                StepResult::Impossible => {
                    self.ui.add_msg((0, 38), Notice::NoSolution);
                    proof {
                        let s = self.board@;
                        assert forall|i: int, j: int|
                            #![trigger s[i], s[j]]
                            in_grid(i) && in_grid(j) && i != j && same_group(i, j)
                                && s[i].is_concrete() && s[i].value_spec()
                                == s[j].value_spec() implies false by {
                            assert(s[i].value_spec() != s[j].value_spec());
                        }
                        assert(dups_flagged(s));
                        lemma_clear_solver_keeps_edit_ok(s);
                    }
                    self.board.clear_maybe();
                    self.mode = Mode::Editing(InputState::default());
                    proof {
                        assert(step_post(old(self).wfc.trail(), self.wfc.trail(), res));
                    }
                    Some(TickCtl::Stop)
                },
            }
        } else {
            None
        }
    }
}

} // verus!
