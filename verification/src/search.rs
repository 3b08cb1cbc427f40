//! Move selection: a river drawn at random, or the river that a search
//! within a time budget has visited most.

use crate::clock::elapsed_millis;
use crate::harness::{unowned, InternalGameState};
use crate::mcts::MCTS;
use crate::tree::{
    bounds_ok, counts_ok, links_ok, preferred_river, shape_ok, ChildStats, MCTSNode, VISIT_LIMIT,
};
use crate::protocol::{Claim, Move, Pass};
use crate::punter::{Play, Punter, PunterType};
use crate::river::RiverIdx;
use crate::rng::random_choice;
use std::time::Instant;
use vstd::prelude::*;

verus! {

/// The part of every time budget that is left unused, in milliseconds.
pub const SAFETY_MARGIN: u64 = 150;

/// The milliseconds that a search may run when the referee allows `timeout`
/// seconds for a move: the allowance less the safety margin.
pub open spec fn search_budget(timeout: u8) -> int {
    if timeout * 1000 >= SAFETY_MARGIN {
        timeout * 1000 - SAFETY_MARGIN
    } else {
        0
    }
}

impl Punter {
    /// Some river has no owner yet.
    pub open spec fn has_free_river(&self) -> bool {
        exists|r: RiverIdx| unowned(self.board()).contains(r)
    }

    /// `play` is a claim by this punter of a river that has no owner.
    pub open spec fn claims_free_river(&self, play: Play) -> bool {
        exists|r: RiverIdx|
            unowned(self.board()).contains(r) && play == (Play {
                punter: self.input.punter,
                source: #[trigger] self.board()[r as int].source,
                target: self.board()[r as int].target,
            })
    }

    /// `answer` is what this punter may send: a claim of its own of a river
    /// without an owner, or a pass where every river has one.
    pub open spec fn may_answer(&self, answer: Move) -> bool {
        if self.has_free_river() {
            answer matches Move::claim(claim) && self.claims_free_river(
                Play { punter: claim.punter, source: claim.source, target: claim.target },
            )
        } else {
            answer == Move::pass(Pass { punter: self.input.punter })
        }
    }

    /// The claim by this punter of the river at position `river`.
    pub open spec fn claim(&self, river: RiverIdx) -> Play {
        Play {
            punter: self.input.punter,
            source: self.board()[river as int].source,
            target: self.board()[river as int].target,
        }
    }

    /// The claim that a search tree prefers: that of the river of the most
    /// visited child of the root, the earliest such child where several
    /// have as many visits; none while the root has no child.
    pub open spec fn preferred_claim(&self, nodes: Seq<MCTSNode>) -> Option<Play> {
        match preferred_river(nodes) {
            Some(river) => Some(self.claim(river)),
            None => None,
        }
    }

    /// `nodes` is a tree that a search of `timeout` seconds can have grown
    /// over the board of this punter: a tree of claims on that board that
    /// has counted its visits; the root alone where no step was made, as it
    /// is where the budget is nothing; and with a child at the root where a
    /// step was made and a river has no owner.
    pub open spec fn searched(&self, nodes: Seq<MCTSNode>, timeout: u8) -> bool {
        &&& shape_ok(nodes, self.board())
        &&& counts_ok(nodes)
        &&& bounds_ok(nodes)
        &&& search_budget(timeout) == 0 ==> nodes[0].count == 0
        &&& nodes[0].count == 0 ==> nodes.len() == 1
        &&& nodes[0].count > 0 && self.has_free_river() ==> nodes[0].children@.len() > 0
    }

    /// The rivers without an owner, in the order of the board.
    pub fn free_rivers(&self) -> (free: Vec<RiverIdx>)
        ensures
            forall|r: RiverIdx| free@.contains(r) <==> unowned(self.board()).contains(r),
            forall|i: int, j: int| 0 <= i < j < free@.len() ==> free@[i] < free@[j],
    {
        let rivers = &self.input.map.rivers;
        let mut free: Vec<RiverIdx> = Vec::new();
        let mut r: usize = 0;
        while r < rivers.len()
            invariant
                r <= rivers@.len(),
                rivers@ == self.board(),
                forall|x: RiverIdx|
                    free@.contains(x) <==> x < r && unowned(self.board()).contains(x),
                forall|i: int| 0 <= i < free@.len() ==> #[trigger] free@[i] < r,
                forall|i: int, j: int| 0 <= i < j < free@.len() ==> free@[i] < free@[j],
            decreases rivers@.len() - r,
        {
            let ghost before = free@;
            match rivers[r].owner {
                Some(_) => {},
                None => {
                    free.push(r);
                    proof {
                        assert(free@[before.len() as int] == r);
                        assert forall|x: RiverIdx| free@.contains(x) <==> x < r + 1 && unowned(
                            self.board(),
                        ).contains(x) by {
                            if before.contains(x) {
                                let at = choose|at: int| 0 <= at < before.len() && before[at] == x;
                                assert(free@[at] == x);
                            }
                            if free@.contains(x) && x != r {
                                let at = choose|at: int| 0 <= at < free@.len() && free@[at] == x;
                                assert(before[at] == x);
                            }
                        }
                    }
                },
            }
            r += 1;
        }
        free
    }

    /// The claim of the river at position `river`.
    pub fn claim_of(&self, river: RiverIdx) -> (play: Play)
        requires
            river < self.board().len(),
        ensures
            play == self.claim(river),
            unowned(self.board()).contains(river) ==> self.claims_free_river(play),
    {
        Play::new(self.river(river), self.id())
    }

    /// The claim of a river drawn at random among those without an owner;
    /// none where every river has one.
    pub fn move_random(&self) -> (play: Option<Play>)
        ensures
            play is Some <==> self.has_free_river(),
            play matches Some(p) ==> self.claims_free_river(p),
    {
        let free = self.free_rivers();
        let mut rng = rand::thread_rng();
        match random_choice(&mut rng, &free) {
            Some(river) => Some(self.claim_of(river)),
            None => {
                proof {
                    if self.has_free_river() {
                        let r = choose|r: RiverIdx| unowned(self.board()).contains(r);
                        assert(free@.contains(r));
                    }
                }
                None
            },
        }
    }

    /// The milliseconds that a search may run of `timeout` seconds.
    pub fn budget(timeout: u8) -> (millis: u64)
        ensures
            millis == search_budget(timeout),
    {
        let allowed: u64 = timeout as u64 * 1000;
        if allowed >= SAFETY_MARGIN {
            allowed - SAFETY_MARGIN
        } else {
            0
        }
    }

    /// Whether a search of `timeout` seconds may make another step when
    /// `elapsed` milliseconds have passed since the turn began.
    pub fn within_budget(elapsed: u128, timeout: u8) -> (go: bool)
        ensures
            go == (elapsed < search_budget(timeout)),
    {
        elapsed < Self::budget(timeout) as u128
    }

    /// The claim that a search prefers: steps of the search are run for as
    /// long as the time since `begin_time` is within the budget of
    /// `timeout` seconds, and the river of the most visited child of the
    /// root is claimed. None where the root has no child: that is where the
    /// clock left no time for a step, or no river is left to claim.
    pub fn move_mcts<F: Fn(u64, &Vec<ChildStats>) -> usize>(
        &self,
        begin_time: Instant,
        timeout: u8,
        pick: &F,
    ) -> (play: Option<Play>)
        requires
            self.wf(),
            forall|visits: u64, stats: &Vec<ChildStats>| call_requires(pick, (visits, stats)),
        ensures
            exists|nodes: Seq<MCTSNode>|
                {
                    &&& #[trigger] self.searched(nodes, timeout)
                    &&& play == self.preferred_claim(nodes)
                    &&& play is None <==> nodes[0].children@.len() == 0
                },
            play matches Some(p) ==> self.claims_free_river(p),
            search_budget(timeout) == 0 ==> play is None,
            !self.has_free_river() ==> play is None,
    {
        let mut mcts = MCTS::new(self);
        let mut game = InternalGameState::new(self);
        while Self::within_budget(elapsed_millis(&begin_time), timeout) && mcts.can_step()
            invariant
                self.wf(),
                mcts.wf(),
                mcts.punter == self,
                game.state == self,
                search_budget(timeout) == 0 ==> mcts.nodes@[0].count == 0,
                mcts.nodes@[0].count == 0 ==> mcts.nodes@.len() == 1,
                mcts.nodes@[0].count > 0 && self.has_free_river() ==> mcts.nodes@.len() >= 2,
                forall|visits: u64, stats: &Vec<ChildStats>| call_requires(pick, (visits, stats)),
            decreases VISIT_LIMIT - mcts.nodes@[0].count,
        {
            game.reset_game();
            proof {
                if self.has_free_river() {
                    let river = choose|r: RiverIdx| unowned(self.board()).contains(r);
                    assert(game.available_rivers@.contains(river));
                    game.available_rivers@.unique_seq_to_set();
                    assert(unowned(self.board()).len() > 0);
                }
            }
            mcts.step(&mut game, pick);
        }
        let best = mcts.best_move();
        proof {
            let nodes = mcts.nodes@;
            if nodes.len() >= 2 {
                assert(links_ok(nodes, 1));
                assert(nodes[0].children@.contains(1usize));
            }
            assert(links_ok(nodes, 0));
            if nodes.len() == 1 && nodes[0].children@.len() > 0 {
                assert(nodes[0].children@[0] < nodes.len());
            }
            assert(self.searched(nodes, timeout));
        }
        match best {
            Some(river) => Some(self.claim_of(river)),
            None => None,
        }
    }

    /// The move to send to the referee: the claim that the punter's way of
    /// playing prefers, a claim drawn at random where it prefers none, a
    /// pass where no river is left to claim.
    pub fn make_move<F: Fn(u64, &Vec<ChildStats>) -> usize>(
        &self,
        begin_time: Instant,
        timeout: u8,
        pick: &F,
    ) -> (answer: Move)
        requires
            self.wf(),
            forall|visits: u64, stats: &Vec<ChildStats>| call_requires(pick, (visits, stats)),
        ensures
            self.may_answer(answer),
    {
        let drawn = match self.move_random() {
            Some(play) => play,
            None => {
                return Move::pass(Pass { punter: self.id() });
            },
        };
        let play = match self.ai {
            PunterType::Random => drawn,
            PunterType::MCTS => match self.move_mcts(begin_time, timeout, pick) {
                Some(play) => play,
                None => drawn,
            },
        };
        Move::claim(Claim { punter: play.punter, source: play.source, target: play.target })
    }
}

} // verus!
