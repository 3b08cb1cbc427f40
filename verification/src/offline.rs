//! A turn of a match in which the referee keeps the punter's state between
//! turns: the state comes in with the moves and goes out with the answer.

use crate::tree::ChildStats;
use crate::protocol::{
    Move, OfflineClaim, OfflineMove, OfflineOption, OfflinePass, OfflineReadyP, OfflineSplurge,
    OfflineTurn,
};
use crate::punter::{apply_claims, turn_claims, MoveError, Punter};
use std::time::Instant;
use vstd::prelude::*;

verus! {

/// The move that a reply carries.
pub open spec fn reply_move(reply: OfflineMove) -> Move {
    match reply {
        OfflineMove::Claim(r) => Move::claim(r.claim),
        OfflineMove::Pass(r) => Move::pass(r.pass),
        OfflineMove::Splurge(r) => Move::splurge(r.splurge),
        OfflineMove::Option(r) => Move::option(r.option),
    }
}

/// The state that a reply carries.
pub open spec fn reply_state(reply: OfflineMove) -> Punter {
    match reply {
        OfflineMove::Claim(r) => r.state,
        OfflineMove::Pass(r) => r.state,
        OfflineMove::Splurge(r) => r.state,
        OfflineMove::Option(r) => r.state,
    }
}

/// The message that the punter is ready, with its state.
pub fn offline_ready(state: Punter) -> (ready: OfflineReadyP)
    ensures
        ready.ready == state.input.punter,
        ready.state == state,
{
    OfflineReadyP { ready: state.id(), state }
}

/// The reply that carries `answer` and `state`.
pub fn offline_reply(answer: Move, state: Punter) -> (reply: OfflineMove)
    ensures
        reply_move(reply) == answer,
        reply_state(reply) == state,
{
    match answer {
        Move::claim(claim) => OfflineMove::Claim(OfflineClaim { claim, state }),
        Move::pass(pass) => OfflineMove::Pass(OfflinePass { pass, state }),
        Move::splurge(splurge) => OfflineMove::Splurge(OfflineSplurge { splurge, state }),
        Move::option(option) => OfflineMove::Option(OfflineOption { option, state }),
    }
}

/// Plays the reported moves on the state that came with them, picks a move,
/// and returns it with the state as it then is; or the reason why a
/// reported move cannot be played.
pub fn offline_turn<F: Fn(u64, &Vec<ChildStats>) -> usize>(
    turn: OfflineTurn,
    begin_time: Instant,
    timeout: u8,
    pick: &F,
) -> (done: Result<OfflineMove, MoveError>)
    requires
        turn.state.wf(),
        forall|visits: u64, stats: &Vec<ChildStats>| call_requires(pick, (visits, stats)),
    ensures
        match done {
            Ok(reply) => {
                &&& apply_claims(turn.state.board(), turn_claims(turn.turn.moves@)) == (
                    reply_state(reply).board(),
                    None::<MoveError>,
                )
                &&& reply_state(reply).wf()
                &&& reply_state(reply).same_match(&turn.state)
                &&& reply_state(reply).may_answer(reply_move(reply))
            },
            Err(e) => apply_claims(turn.state.board(), turn_claims(turn.turn.moves@)).1 == Some(e),
        },
{
    let mut state = turn.state;
    match state.process_turn(&turn.turn.moves) {
        Ok(()) => {},
        Err(e) => {
            return Err(e);
        },
    }
    let answer = state.make_move(begin_time, timeout, pick);
    Ok(offline_reply(answer, state))
}

} // verus!
