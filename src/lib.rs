//! Rule engine of a falling-block puzzle game: the playing field, the active
//! and queued pieces, collision and boundary checks, line clearing, scoring
//! and piece rotation, all as a deterministic state machine.
pub mod board;
pub mod buf;
pub mod settings;
pub mod shapes;

pub use board::{Direction, Tetris, TetrisModel, MAX_SIDE};
pub use buf::{RingBuffer, RingBufferError};
pub use settings::App;
pub use shapes::{Shape, ShapeKind, XY};
