use vstd::prelude::*;

pub mod encoding;
pub mod symmetry;
pub mod rules;
pub mod sorted;
pub mod search;
pub mod csr;
pub mod retro;
pub mod solve;
pub mod par;
pub mod layouts;
pub mod merge;
pub mod codec;
pub mod material;
pub mod mirror;
pub mod mirror_count;
pub mod pieces;
pub mod reach;
pub mod drops;
pub mod steps;

pub use encoding::{sq_idx, get_sq, set_sq, get_hand, set_hand};
pub use symmetry::{reflect_lr, canonical, flip_perspective};
pub use rules::{initial_position, black_offsets, find_white_lion, black_can_reach, is_terminal, generate_successors_canonical};
pub use sorted::{merge_into, diff_sorted};
pub use search::bfs;
pub use csr::build_reverse_csr;
pub use retro::retrograde;

verus! {

// The library is the 5 × 3 variant of the game: the board size below is fixed, and the
// specifications and proofs are written for 15 squares in 5 rows of 3. The standard 4 × 3
// game is not covered.

/// Number of board rows.
pub const ROWS: i32 = 5;

/// Number of board columns.
pub const COLS: i32 = 3;

/// Number of board squares.
pub const NUM_SQ: usize = 15;

/// Bit offset of the hand counts inside a packed position.
pub const HAND_SHIFT: usize = 60;

/// Index of the side-to-move's back rank.
pub const HOME_ROW: usize = 4;

/// A packed position.
pub type Pos = u128;

/// An index into the reverse-edge array.
pub type EdgeIdx = u64;

/// Number of successors gathered before a batch is sorted and flushed.
pub const BATCH_CAP: usize = 80_000_000;

/// Status of a position whose value is not known (yet): a draw once the analysis ends.
pub const STATUS_UNKNOWN: u8 = 0;

/// Status of a position that the side to move wins.
pub const STATUS_WIN: u8 = 1;

/// Status of a position that the side to move loses.
pub const STATUS_LOSE: u8 = 2;

} // verus!
