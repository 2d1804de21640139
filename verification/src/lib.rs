//! A two-player "side-stacker" board game: discs are pushed into a row from
//! its left or right edge and slide to the first empty cell.  The crate holds
//! the rules engine (push / pop / winner / stalemate / legal moves), a textual
//! codec for game states, a position-only board hash, and an adversary search
//! (negamax with alpha-beta pruning over a bounded transposition cache).

pub mod adversary;
pub mod adversary_minimax;
pub mod codec;
pub mod game;
pub mod laws;
pub mod model;
pub mod rules;
pub mod winner;
