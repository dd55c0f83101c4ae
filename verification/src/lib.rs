//! Tower of Hanoi game logic, with no rendering dependencies.

pub mod controls;
pub mod game;
pub mod model;
pub mod optimality;
pub mod peg;
pub mod solver;

pub use game::HanoiGame;
pub use peg::{Move, MoveError, Peg, other_peg};
pub use solver::{solve, solve_from_current};
