//! Go rule engine and neural-network feature extraction on a 19x19 board.
//!
//! The board is a flat array of cells; blocks, liberties, legality and
//! simulated moves are all specified over that array and proved.

pub mod geometry;
pub mod board_fast;
pub mod symmetry;
pub mod board;
pub mod features;
pub mod layers;

pub use geometry::{Color, CELLS, PASS, EMPTY, BLACK, WHITE};
pub use board_fast::FastBoard;
pub use symmetry::Transform;
pub use board::Board;
pub use features::{Order, CHW, HWC, NUM_FEATURES, FEATURE_SIZE, FEATURE_ONE};
