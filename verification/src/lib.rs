//! Rules, board geometry and search for a hexagonal stacking game.
//!
//! The board is a hexagon of cells addressed by axial coordinates. Players
//! place stacks whose height is the number of friendly pieces that see the
//! cell along the six straight lines through it.
pub mod ai;
pub mod board;
pub mod display;
pub mod hex;
pub mod history;
pub mod main_logic;
pub mod mesh;
pub mod move_build;
pub mod moves;
pub mod share;
pub mod spoke_laws;
pub mod unit;
pub mod zobrist;

use vstd::prelude::*;

verus! {

} // verus!
