//! The punter: the setup with its derived tables, and the board of a
//! running match.

use crate::distance::{
    is_distance_table, lemma_distance_table_same_ends, mine_positions, ShortestPathsMap,
};
use crate::graph::{
    is_graph_index, lemma_first_joining_from, lemma_graph_index_same_ends, rivers_in_range,
    same_ends, EdgeMatrix,
};
use crate::protocol::{Claim, HandshakeP, Move};
use crate::river::{PunterId, River, RiverIdx, SiteId, SiteIdx};
use crate::setup::{
    distinct_sites, fits_scores, index_sites, is_site_index, mines_known, river_indexed,
    rivers_indexed, rivers_wf, same_rivers_but_positions, Input, SetupError,
};
use std::collections::HashMap;
use vstd::prelude::*;

verus! {

broadcast use vstd::std_specs::hash::group_hash_axioms;

/// How a punter picks its moves.
#[derive(Debug, Clone, Copy)]
pub enum PunterType {
    Random,
    MCTS,
}

/// Why a reported move cannot be played.
#[derive(Debug, Clone, Copy, PartialEq, Eq)]
pub enum MoveError {
    /// No river runs between the two named sites.
    UnknownRiver,
    /// The river has an owner and a renter already, or the punter holds it.
    OwnershipConflict,
}

/// The whole state of a punter during a match.
#[derive(Debug)]
pub struct Punter {
    pub input: Input,
    /// From a site's identifier to its position.
    pub site_index: HashMap<SiteId, SiteIdx>,
    /// For every site the rivers at it, ordered by the site across.
    pub edges: EdgeMatrix,
    /// For every mine the hop count to every site.
    pub shortest_paths: ShortestPathsMap,
    pub ai: PunterType,
}

/// What a punter sends to the referee as its move.
#[derive(Debug, Clone, Copy)]
pub struct Play {
    pub punter: PunterId,
    pub source: SiteId,
    pub target: SiteId,
}

impl Play {
    /// The claim of `river` by `punter`.
    pub fn new(river: &River, punter: PunterId) -> (play: Play)
        ensures
            play == (Play { punter, source: river.source, target: river.target }),
    {
        Play { punter, source: river.source, target: river.target }
    }
}

/// The first river at or after position `from` that runs between the sites
/// named `a` and `b`.
pub open spec fn first_linking_from(rivers: Seq<River>, a: SiteId, b: SiteId, from: int) -> Option<
    RiverIdx,
>
    decreases rivers.len() - from,
{
    if from < 0 || from >= rivers.len() {
        None
    } else if rivers[from].links(a, b) {
        Some(from as RiverIdx)
    } else {
        first_linking_from(rivers, a, b, from + 1)
    }
}

/// The river of least position that runs between the sites named `a` and
/// `b`, if there is one.
pub open spec fn first_linking(rivers: Seq<River>, a: SiteId, b: SiteId) -> Option<RiverIdx> {
    first_linking_from(rivers, a, b, 0)
}

/// What `first_linking_from` finds is a river between the two sites with
/// none before it; it finds nothing only where there is none.
pub proof fn lemma_first_linking_from(rivers: Seq<River>, a: SiteId, b: SiteId, from: int)
    requires
        0 <= from,
        rivers.len() <= usize::MAX,
    ensures
        match first_linking_from(rivers, a, b, from) {
            Some(r) => from <= r < rivers.len() && rivers[r as int].links(a, b) && forall|j: int|
                from <= j < r ==> !(#[trigger] rivers[j]).links(a, b),
            None => forall|j: int| from <= j < rivers.len() ==> !(#[trigger] rivers[j]).links(a, b),
        },
    decreases rivers.len() - from,
{
    if from < rivers.len() && !rivers[from].links(a, b) {
        lemma_first_linking_from(rivers, a, b, from + 1);
    }
}

/// Looking a river up by its two sites gives the same river whichever site
/// is named first.
pub proof fn lemma_find_symmetric(rivers: Seq<River>, a: SiteId, b: SiteId)
    ensures
        first_linking(rivers, a, b) == first_linking(rivers, b, a),
{
    lemma_first_linking_from_symmetric(rivers, a, b, 0);
}

proof fn lemma_first_linking_from_symmetric(rivers: Seq<River>, a: SiteId, b: SiteId, from: int)
    ensures
        first_linking_from(rivers, a, b, from) == first_linking_from(rivers, b, a, from),
    decreases rivers.len() - from,
{
    if 0 <= from < rivers.len() && !rivers[from].links(a, b) {
        lemma_first_linking_from_symmetric(rivers, a, b, from + 1);
    }
}

/// The board after `punter` has been given a share of the river between
/// `source` and `target`, or the reason why that cannot be.
pub open spec fn claim_outcome(rivers: Seq<River>, claim: Claim) -> Result<Seq<River>, MoveError> {
    match first_linking(rivers, claim.source, claim.target) {
        None => Err(MoveError::UnknownRiver),
        Some(r) => if rivers[r as int].admits(claim.punter) {
            Ok(rivers.update(r as int, rivers[r as int].with_holder(claim.punter)))
        } else {
            Err(MoveError::OwnershipConflict)
        },
    }
}

/// The hops of a route, each as a claim by `punter`.
pub open spec fn route_claims(punter: PunterId, route: Seq<SiteId>) -> Seq<Claim> {
    Seq::new(
        if route.len() > 0 {
            (route.len() - 1) as nat
        } else {
            0
        },
        |i: int| Claim { punter, source: route[i], target: route[i + 1] },
    )
}

/// The claims that one move amounts to: a splurge is a claim per hop, a
/// pass is none.
pub open spec fn move_claims(m: Move) -> Seq<Claim> {
    match m {
        Move::claim(c) => seq![c],
        Move::option(c) => seq![c],
        Move::pass(_) => Seq::empty(),
        Move::splurge(s) => route_claims(s.punter, s.route@),
    }
}

/// The claims that a list of moves amounts to, in order.
pub open spec fn turn_claims(moves: Seq<Move>) -> Seq<Claim>
    decreases moves.len(),
{
    if moves.len() == 0 {
        Seq::empty()
    } else {
        turn_claims(moves.drop_last()) + move_claims(moves.last())
    }
}

/// The board after the claims have been played in order, up to the first
/// that cannot be, together with the reason for that one.
pub open spec fn apply_claims(rivers: Seq<River>, claims: Seq<Claim>) -> (Seq<River>, Option<
    MoveError,
>)
    decreases claims.len(),
{
    if claims.len() == 0 {
        (rivers, None)
    } else {
        let (before, stopped) = apply_claims(rivers, claims.drop_last());
        if stopped is Some {
            (before, stopped)
        } else {
            match claim_outcome(before, claims.last()) {
                Ok(after) => (after, None),
                Err(e) => (before, Some(e)),
            }
        }
    }
}

/// The reason carried by a failure, if it is one.
pub open spec fn stopped_by(done: Result<(), MoveError>) -> Option<MoveError> {
    match done {
        Ok(()) => None,
        Err(e) => Some(e),
    }
}

/// Playing `first` and then `rest` is playing the two in one go, as long as
/// `first` can be played in full.
pub proof fn lemma_apply_claims_append(rivers: Seq<River>, first: Seq<Claim>, rest: Seq<Claim>)
    requires
        apply_claims(rivers, first).1 is None,
    ensures
        apply_claims(rivers, first + rest) == apply_claims(apply_claims(rivers, first).0, rest),
    decreases rest.len(),
{
    if rest.len() == 0 {
        assert(first + rest == first);
    } else {
        assert((first + rest).drop_last() == first + rest.drop_last());
        assert((first + rest).last() == rest.last());
        lemma_apply_claims_append(rivers, first, rest.drop_last());
    }
}

/// Once a claim cannot be played, what follows it changes nothing.
pub proof fn lemma_apply_claims_stuck(rivers: Seq<River>, first: Seq<Claim>, rest: Seq<Claim>)
    requires
        apply_claims(rivers, first).1 is Some,
    ensures
        apply_claims(rivers, first + rest) == apply_claims(rivers, first),
    decreases rest.len(),
{
    if rest.len() == 0 {
        assert(first + rest == first);
    } else {
        assert((first + rest).drop_last() == first + rest.drop_last());
        lemma_apply_claims_stuck(rivers, first, rest.drop_last());
    }
}

impl Punter {
    /// The tables are those of the setup, and the setup is playable.
    pub open spec fn wf(&self) -> bool {
        let sites = self.input.map.sites@;
        let rivers = self.input.map.rivers@;
        let mines = self.input.map.mines@;
        &&& self.input.punter < self.input.punters
        &&& distinct_sites(sites)
        &&& is_site_index(sites, self.site_index@)
        &&& rivers_indexed(sites, rivers)
        &&& mines_known(sites, mines)
        &&& rivers_wf(rivers)
        &&& fits_scores(self.input.punters as int, mines.len() as int, sites.len() as int)
        &&& is_graph_index(rivers, sites.len() as int, self.edges@)
        &&& is_distance_table(
            rivers,
            sites.len() as int,
            mine_positions(self.site_index@, mines),
            self.shortest_paths@,
        )
    }

    /// The board: every river with its holders.
    pub open spec fn board(&self) -> Seq<River> {
        self.input.map.rivers@
    }

    /// `self` is `before` but for who holds which river.
    pub open spec fn same_match(&self, before: &Punter) -> bool {
        &&& self.input.punter == before.input.punter
        &&& self.input.punters == before.input.punters
        &&& self.input.settings == before.input.settings
        &&& self.input.map.sites@ == before.input.map.sites@
        &&& self.input.map.mines@ == before.input.map.mines@
        &&& self.site_index@ == before.site_index@
        &&& self.edges@ == before.edges@
        &&& self.shortest_paths@ == before.shortest_paths@
        &&& self.ai == before.ai
        &&& self.board().len() == before.board().len()
        &&& forall|r: int|
            0 <= r < self.board().len() ==> {
                &&& (#[trigger] self.board()[r]).source == before.board()[r].source
                &&& self.board()[r].target == before.board()[r].target
                &&& self.board()[r].source_idx == before.board()[r].source_idx
                &&& self.board()[r].target_idx == before.board()[r].target_idx
            }
    }

    /// Indexes the setup and builds its tables, or says what is wrong with
    /// it.
    pub fn new(input: Input, ai: PunterType) -> (made: Result<Punter, SetupError>)
        ensures
            match made {
                Ok(punter) => {
                    &&& input.setup_error() is None
                    &&& punter.wf()
                    &&& punter.ai == ai
                    &&& punter.input.punter == input.punter
                    &&& punter.input.punters == input.punters
                    &&& punter.input.settings == input.settings
                    &&& punter.input.map.sites@ == input.map.sites@
                    &&& punter.input.map.mines@ == input.map.mines@
                    &&& same_rivers_but_positions(input.map.rivers@, punter.board())
                },
                Err(e) => input.setup_error() == Some(e),
            },
    {
        let ghost given = input;
        let mut input = input;
        let site_index = match index_sites(&input.map.sites) {
            Ok(index) => index,
            Err(e) => {
                return Err(e);
            },
        };
        match input.index_rivers(&site_index) {
            Ok(()) => {},
            Err(e) => {
                return Err(e);
            },
        }
        if !input.check_mines(&site_index) {
            return Err(SetupError::UnknownMine);
        }
        if input.punter >= input.punters {
            return Err(SetupError::NoSuchPunter);
        }
        proof {
            assert(rivers_wf(given.map.rivers@) == rivers_wf(input.map.rivers@)) by {
                if rivers_wf(given.map.rivers@) {
                    assert forall|k: int| 0 <= k < input.map.rivers@.len() implies (
                    #[trigger] input.map.rivers@[k]).wf() by {
                        assert(given.map.rivers@[k].wf());
                    }
                }
                if rivers_wf(input.map.rivers@) {
                    assert forall|k: int| 0 <= k < given.map.rivers@.len() implies (
                    #[trigger] given.map.rivers@[k]).wf() by {
                        assert(input.map.rivers@[k].wf());
                    }
                }
            }
        }
        if !input.check_holders() {
            return Err(SetupError::OwnershipConflict);
        }
        if !input.check_size() {
            return Err(SetupError::TooLarge);
        }
        proof {
            assert(rivers_in_range(input.map.rivers@, input.map.sites@.len() as int)) by {
                assert forall|r: int| 0 <= r < input.map.rivers@.len() implies (
                #[trigger] input.map.rivers@[r]).source_idx < input.map.sites@.len()
                    && input.map.rivers@[r].target_idx < input.map.sites@.len() by {
                    assert(river_indexed(input.map.sites@, input.map.rivers@[r]));
                }
            }
        }
        let edges = input.compute_edges();
        let shortest_paths = input.compute_shortest_paths(&edges, &site_index);
        Ok(Punter { input, site_index, edges, shortest_paths, ai })
    }

    /// This punter's own identifier.
    pub fn id(&self) -> (id: PunterId)
        ensures
            id == self.input.punter,
    {
        self.input.punter
    }

    /// The river of least position that runs between the sites named
    /// `source` and `target`.
    pub fn find_river(&self, source: SiteId, target: SiteId) -> (found: Option<RiverIdx>)
        requires
            self.wf(),
        ensures
            found == first_linking(self.board(), source, target),
            found matches Some(r) ==> r < self.board().len() && self.board()[r as int].links(
                source,
                target,
            ),
    {
        let ghost sites = self.input.map.sites@;
        let ghost rivers = self.input.map.rivers@;
        assert(rivers.len() == self.input.map.rivers.len());
        proof {
            lemma_first_linking_from(rivers, source, target, 0);
        }
        let source_idx = match self.site_index.get(&source) {
            Some(idx) => *idx,
            None => {
                proof {
                    assert forall|j: int| 0 <= j < rivers.len() implies !(#[trigger] rivers[j]).links(
                        source,
                        target,
                    ) by {
                        assert(river_indexed(sites, rivers[j]));
                        assert(sites[rivers[j].source_idx as int].id == rivers[j].source);
                        assert(sites[rivers[j].target_idx as int].id == rivers[j].target);
                    }
                }
                return None;
            },
        };
        let target_idx = match self.site_index.get(&target) {
            Some(idx) => *idx,
            None => {
                proof {
                    assert forall|j: int| 0 <= j < rivers.len() implies !(#[trigger] rivers[j]).links(
                        source,
                        target,
                    ) by {
                        assert(river_indexed(sites, rivers[j]));
                        assert(sites[rivers[j].source_idx as int].id == rivers[j].source);
                        assert(sites[rivers[j].target_idx as int].id == rivers[j].target);
                    }
                }
                return None;
            },
        };
        let found = self.input.river_between(&self.edges, source_idx, target_idx);
        proof {
            lemma_first_joining_from(rivers, source_idx as int, target_idx as int, 0);
            assert(sites[source_idx as int].id == source);
            assert(sites[target_idx as int].id == target);
            assert forall|j: int| 0 <= j < rivers.len() implies ((#[trigger] rivers[j]).links(
                source,
                target,
            ) <==> rivers[j].joins(source_idx as int, target_idx as int)) by {
                assert(river_indexed(sites, rivers[j]));
                let s = rivers[j].source_idx as int;
                let t = rivers[j].target_idx as int;
                assert(sites[s].id == rivers[j].source);
                assert(sites[t].id == rivers[j].target);
                assert(self.site_index@[sites[s].id] == s);
                assert(self.site_index@[sites[t].id] == t);
            }
        }
        found
    }

    /// The river at position `id`.
    pub fn river(&self, id: RiverIdx) -> (river: &River)
        requires
            id < self.board().len(),
        ensures
            *river == self.board()[id as int],
    {
        &self.input.map.rivers[id]
    }

    /// The river at position `id`, to be changed in place.
    pub fn river_mut(&mut self, id: RiverIdx) -> (river: &mut River)
        requires
            id < old(self).board().len(),
        ensures
            *river == old(self).board()[id as int],
            final(self).board() == old(self).board().update(id as int, *final(river)),
            final(self).input.punter == old(self).input.punter,
            final(self).input.punters == old(self).input.punters,
            final(self).input.settings == old(self).input.settings,
            final(self).input.map.sites == old(self).input.map.sites,
            final(self).input.map.mines == old(self).input.map.mines,
            final(self).site_index == old(self).site_index,
            final(self).edges == old(self).edges,
            final(self).shortest_paths == old(self).shortest_paths,
            final(self).ai == old(self).ai,
    {
        &mut self.input.map.rivers[id]
    }

    /// A board that differs from a playable one in the holders of one river,
    /// which respect the rule on holders, is playable.
    proof fn lemma_holders_changed(before: &Punter, after: &Punter, id: int)
        requires
            before.wf(),
            after.same_match(before),
            0 <= id < before.board().len(),
            after.board() == before.board().update(id, after.board()[id]),
            after.board()[id].wf(),
        ensures
            after.wf(),
    {
        let sites = before.input.map.sites@;
        let old_rivers = before.board();
        let new_rivers = after.board();
        assert forall|k: int| 0 <= k < new_rivers.len() implies river_indexed(
            sites,
            #[trigger] new_rivers[k],
        ) by {
            assert(river_indexed(sites, old_rivers[k]));
        }
        assert forall|k: int| 0 <= k < new_rivers.len() implies (#[trigger] new_rivers[k]).wf() by {
            if k != id {
                assert(old_rivers[k].wf());
            }
        }
        assert(same_ends(old_rivers, new_rivers));
        lemma_graph_index_same_ends(old_rivers, new_rivers, sites.len() as int, before.edges@);
        lemma_distance_table_same_ends(
            old_rivers,
            new_rivers,
            sites.len() as int,
            mine_positions(before.site_index@, before.input.map.mines@),
            before.shortest_paths@,
        );
    }

    /// Gives `punter` a share of the river between `source` and `target`:
    /// the ownership if it is free, the rent otherwise.
    pub fn add_move(&mut self, punter: PunterId, source: SiteId, target: SiteId) -> (done: Result<
        (),
        MoveError,
    >)
        requires
            old(self).wf(),
        ensures
            final(self).wf(),
            final(self).same_match(old(self)),
            match done {
                Ok(()) => claim_outcome(old(self).board(), Claim { punter, source, target }) == Ok::<
                    Seq<River>,
                    MoveError,
                >(final(self).board()),
                Err(e) => claim_outcome(old(self).board(), Claim { punter, source, target }) == Err::<
                    Seq<River>,
                    MoveError,
                >(e) && final(self).board() == old(self).board(),
            },
    {
        let id = match self.find_river(source, target) {
            Some(id) => id,
            None => {
                return Err(MoveError::UnknownRiver);
            },
        };
        if !self.river(id).can_add_owner(punter) {
            return Err(MoveError::OwnershipConflict);
        }
        assert(old(self).board()[id as int].wf());
        self.river_mut(id).add_owner(punter);
        proof {
            Self::lemma_holders_changed(old(self), self, id as int);
        }
        Ok(())
    }

    /// Plays the moves that the referee reports, in order, and stops at the
    /// first that cannot be played.
    pub fn process_turn(&mut self, moves: &Vec<Move>) -> (done: Result<(), MoveError>)
        requires
            old(self).wf(),
        ensures
            final(self).wf(),
            final(self).same_match(old(self)),
            apply_claims(old(self).board(), turn_claims(moves@)) == (
                final(self).board(),
                stopped_by(done),
            ),
    {
        let ghost start = self.board();
        let mut k: usize = 0;
        while k < moves.len()
            invariant
                k <= moves@.len(),
                self.wf(),
                self.same_match(old(self)),
                start == old(self).board(),
                apply_claims(start, turn_claims(moves@.take(k as int))) == (
                    self.board(),
                    None::<MoveError>,
                ),
            decreases moves@.len() - k,
        {
            let ghost played = turn_claims(moves@.take(k as int));
            let ghost next = move_claims(moves@[k as int]);
            let ghost mid = self.board();
            proof {
                assert(apply_claims(mid, Seq::<Claim>::empty()) == (mid, None::<MoveError>));
                assert(moves@.take(k + 1).drop_last() == moves@.take(k as int));
                assert(turn_claims(moves@.take(k + 1)) == played + next);
            }
            let outcome = match &moves[k] {
                Move::claim(c) => {
                    let outcome = self.add_move(c.punter, c.source, c.target);
                    proof {
                        assert(next.drop_last() == Seq::<Claim>::empty());
                        assert(next.last() == *c);
                    }
                    outcome
                },
                Move::option(c) => {
                    let outcome = self.add_move(c.punter, c.source, c.target);
                    proof {
                        assert(next.drop_last() == Seq::<Claim>::empty());
                        assert(next.last() == *c);
                    }
                    outcome
                },
                Move::pass(_) => Ok(()),
                Move::splurge(s) => self.add_route(s.punter, &s.route),
            };
            proof {
                let rest = moves@.skip(k + 1);
                assert(moves@ == moves@.take(k + 1) + rest);
                assert(apply_claims(mid, next) == (self.board(), stopped_by(outcome)));
                lemma_apply_claims_append(start, played, next);
                if outcome is Err {
                    lemma_turn_claims_append(moves@.take(k + 1), rest);
                    lemma_apply_claims_stuck(start, played + next, turn_claims(rest));
                }
            }
            match outcome {
                Ok(()) => {},
                Err(e) => {
                    return Err(e);
                },
            }
            k += 1;
        }
        assert(moves@.take(k as int) == moves@);
        Ok(())
    }

    /// Plays a claim for every hop of `route`, in order, and stops at the
    /// first that cannot be played.
    pub fn add_route(&mut self, punter: PunterId, route: &Vec<SiteId>) -> (done: Result<
        (),
        MoveError,
    >)
        requires
            old(self).wf(),
        ensures
            final(self).wf(),
            final(self).same_match(old(self)),
            apply_claims(old(self).board(), route_claims(punter, route@)) == (
                final(self).board(),
                stopped_by(done),
            ),
    {
        let ghost start = self.board();
        let ghost hops = route_claims(punter, route@);
        if route.len() == 0 {
            return Ok(());
        }
        let mut k: usize = 0;
        while k < route.len() - 1
            invariant
                k + 1 <= route@.len(),
                route@.len() > 0,
                self.wf(),
                self.same_match(old(self)),
                start == old(self).board(),
                hops == route_claims(punter, route@),
                apply_claims(start, hops.take(k as int)) == (self.board(), None::<MoveError>),
            decreases route@.len() - k,
        {
            let outcome = self.add_move(punter, route[k], route[k + 1]);
            proof {
                assert(hops.take(k + 1).drop_last() == hops.take(k as int));
                assert(hops.take(k + 1).last() == hops[k as int]);
                assert(hops[k as int] == Claim {
                    punter,
                    source: route@[k as int],
                    target: route@[k + 1],
                });
                if outcome is Err {
                    assert(hops == hops.take(k + 1) + hops.skip(k + 1));
                    lemma_apply_claims_stuck(start, hops.take(k + 1), hops.skip(k + 1));
                }
            }
            match outcome {
                Ok(()) => {},
                Err(e) => {
                    return Err(e);
                },
            }
            k += 1;
        }
        assert(hops.take(k as int) == hops);
        Ok(())
    }
}

/// The claims of two lists of moves, one after the other, are the claims of
/// the joined list.
pub proof fn lemma_turn_claims_append(first: Seq<Move>, rest: Seq<Move>)
    ensures
        turn_claims(first + rest) == turn_claims(first) + turn_claims(rest),
    decreases rest.len(),
{
    if rest.len() == 0 {
        assert(first + rest == first);
        assert(turn_claims(first) + Seq::<Claim>::empty() == turn_claims(first));
    } else {
        assert((first + rest).drop_last() == first + rest.drop_last());
        assert((first + rest).last() == rest.last());
        lemma_turn_claims_append(first, rest.drop_last());
        assert(turn_claims(first) + (turn_claims(rest.drop_last()) + move_claims(rest.last())) == (
        turn_claims(first) + turn_claims(rest.drop_last())) + move_claims(rest.last()));
    }
}

/// The opening message, under the name `name`.
pub fn handshake(name: String) -> (hello: HandshakeP)
    ensures
        hello.me == name,
{
    HandshakeP { me: name }
}

} // verus!
