//! Bit-parallel move generation for a stacking game on a narrow well.
//!
//! Placements of a piece are sets of poses packed into one machine word
//! (a *wave*); reachability is computed by repeated masked dilation of that
//! word, and every resting pose is turned into the well it leaves behind.

pub mod constants;
pub mod types;
pub mod emulator;
pub mod search;
