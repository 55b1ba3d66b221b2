use vstd::prelude::*;

verus! {

/// Number of rows of a well.
pub const EFF_HEIGHT: usize = 20;

/// Number of columns of a well.
pub const COLUMNS: usize = 10;

/// Number of rotations of a piece; a column of the pose lattice holds this many poses.
pub const ROTATIONS: usize = 4;

/// Number of poses of a piece: one bit of a wave for each.
pub const WAVE_SIZE: usize = 40;

/// Number of distinct pieces.
pub const PIECE_COUNT: usize = 7;

/// A row with every playfield cell occupied.
pub const FULL_ROW: u16 = 0x3ff;

/// Number of distinct row values, `FULL_ROW + 1`: the length of a per-row table.
pub const ROW_VALUES: usize = 1024;

/// The height scan stops once `height + 1` reaches this value: the deepest
/// window it looks at, `EFF_HEIGHT + 3`, still holds the floor row.
pub const WELL_HEIGHT: usize = 25;

/// The height metric of a piece that has no placement is `-WELL_LINE`.
pub const WELL_LINE: usize = 20;

/// Poses that a rotation step moves towards the high bits of their column group.
pub const ROTATE_LEFT: u64 = 0x33_3333_3333;

/// Poses that a rotation step moves towards the low bits of their column group.
pub const ROTATE_RIGHT: u64 = 0xcc_cccc_cccc;

/// Bits that a rotation step shifts a pose by: half a column group.
pub const ROTATE_SHIFT: u64 = 2;

/// Bits that a one-column move shifts a pose by.
pub const COLUMN_SHIFT: u64 = 4;

/// Largest score of a state that can still take a placement: clearing every
/// row of the well at once adds `EFF_HEIGHT * EFF_HEIGHT`.
pub const MAX_SCORE: u16 = 65135;

/// Width of the hidden layer of the heuristic network.
pub const HIDDEN: usize = 32;

/// Number of convolution features of the heuristic network.
pub const ALL_CONV: usize = 1024;

/// Beam width of a master search.
pub const MASTER_BEAM_WIDTH: usize = 1000;

/// Beam depth of a master search.
pub const MASTER_BEAM_DEPTH: usize = 100;

/// Rounds of quiescence of a master search.
pub const MASTER_MAX_PLAY: usize = 4;

/// Beam width of a training search.
pub const TRAINING_BEAM_WIDTH: usize = 100;

/// Beam depth of a training search.
pub const TRAINING_BEAM_DEPTH: usize = 10;

/// Rounds of quiescence of a training search.
pub const TRAINING_MAX_PLAY: usize = 0;

/// The series of generations that the checkpoints belong to.
pub const AEON: usize = 1;

/// The directory that checkpoints are written under.
pub const CHECKPOINTS: &'static str = "checkpoints";

} // verus!
