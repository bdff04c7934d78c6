//! An interactive 9x9 Sudoku model with an incremental backtracking solver.
//!
//! The board keeps one of five states per cell (empty, a user value that is
//! consistent, a user value that violates a uniqueness rule, a bitmask of
//! remaining candidates, or a value chosen by the solver).  The solver walks
//! a trail of full board snapshots, collapsing the cell with the fewest
//! remaining candidates one step at a time and backtracking when a branch
//! runs out of values.

pub mod app;
pub mod board;
pub mod ui;
pub mod wfc;

pub use app::App;
pub use app::InputEvent;
pub use app::InputState;
pub use app::Mode;
pub use app::SolveState;
pub use app::TickCtl;
pub use board::Board;
pub use board::Cell;
pub use ui::Notice;
pub use ui::Ui;
pub use wfc::StepResult;
pub use wfc::Wfc;
