//! A player for a turn-based game in which punters claim the rivers of a
//! shared map, with proofs of the bookkeeping that move selection rests on.

mod clock;
pub mod distance;
pub mod graph;
pub mod harness;
pub mod mcts;
pub mod offline;
pub mod protocol;
pub mod punter;
pub mod river;
mod rng;
pub mod scorer;
pub mod search;
pub mod setup;
pub mod tree;
pub mod util;
