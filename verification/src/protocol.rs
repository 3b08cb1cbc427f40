//! The messages that punter and referee exchange, as plain values.

use crate::punter::Punter;
use crate::river::{PunterId, SiteId};
use vstd::prelude::*;

verus! {

/// The punter introduces itself.
#[derive(Debug)]
pub struct HandshakeP {
    pub me: String,
}

/// The referee confirms the name.
#[derive(Debug)]
pub struct HandshakeS {
    pub you: String,
}

/// The punter has digested the setup.
#[derive(Debug)]
pub struct ReadyP {
    pub ready: PunterId,
}

/// One move of one punter.
#[allow(non_camel_case_types)]
#[derive(Debug)]
pub enum Move {
    claim(Claim),
    pass(Pass),
    splurge(Splurge),
    option(Claim),
}

/// A punter's final score.
#[derive(Debug)]
pub struct Score {
    pub punter: PunterId,
    pub score: isize,
}

/// The punter is ready, and hands its state over for safekeeping.
#[derive(Debug)]
pub struct OfflineReadyP {
    pub ready: PunterId,
    pub state: Punter,
}

/// The moves since the punter's last turn, with the state it handed over.
#[derive(Debug)]
pub struct OfflineTurn {
    pub turn: Moves,
    pub state: Punter,
}

/// A list of moves.
#[derive(Debug)]
pub struct Moves {
    pub moves: Vec<Move>,
}

/// The end of the match, with the state the punter handed over.
#[derive(Debug)]
pub struct OfflineStop {
    pub stop: MovesScores,
    pub state: Punter,
}

/// The last moves and the final scores.
#[derive(Debug)]
pub struct MovesScores {
    pub moves: Vec<Move>,
    pub scores: Vec<Score>,
}

/// The punter's move, with the state to hand back next turn.
#[derive(Debug)]
pub enum OfflineMove {
    Claim(OfflineClaim),
    Pass(OfflinePass),
    Splurge(OfflineSplurge),
    Option(OfflineOption),
}

#[derive(Debug)]
pub struct OfflineClaim {
    pub claim: Claim,
    pub state: Punter,
}

/// `punter` takes the river between `source` and `target`.
#[derive(Debug, Clone, Copy)]
pub struct Claim {
    pub punter: PunterId,
    pub source: SiteId,
    pub target: SiteId,
}

#[derive(Debug)]
pub struct OfflinePass {
    pub pass: Pass,
    pub state: Punter,
}

/// `punter` takes nothing this turn.
#[derive(Debug, Clone, Copy)]
pub struct Pass {
    pub punter: PunterId,
}

#[derive(Debug)]
pub struct OfflineSplurge {
    pub splurge: Splurge,
    pub state: Punter,
}

/// `punter` takes every river along `route` at once.
#[derive(Debug)]
pub struct Splurge {
    pub punter: PunterId,
    pub route: Vec<SiteId>,
}

#[derive(Debug)]
pub struct OfflineOption {
    pub option: Claim,
    pub state: Punter,
}

} // verus!
