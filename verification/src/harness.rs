//! The simulation harness: a throwaway copy of the board on which a search
//! plays a match to its end, and which is reset before every playout.

use crate::distance::mine_positions;
use crate::graph::rivers_in_range;
use crate::punter::Punter;
use crate::river::{PunterId, River, RiverIdx, SiteIdx};
use crate::scorer::lemma_total_score_bound;
use crate::setup::{fits_scores, river_indexed, rivers_wf};
use crate::util::lemma_distinct_below;
use std::collections::VecDeque;
use vstd::prelude::*;

verus! {

/// How far a simulated match has come.
#[derive(Debug, Clone, Copy, PartialEq, Eq, Structural)]
pub enum GameStatus {
    NotStarted,
    Playing,
    Finished,
}

/// What a search may do in a node: here, claim a river.
pub trait GameAction: Copy {

}

impl GameAction for RiverIdx {

}

/// A match in simulation.
///
/// `available_rivers` lists the rivers without an owner, in no particular
/// order; `slots` holds for each of them its position in that list, so that
/// a river is struck off in constant time.
#[derive(Debug)]
pub struct InternalGameState<'a> {
    pub state: &'a Punter,
    pub status: GameStatus,
    pub current_punter: PunterId,
    pub rivers: Vec<River>,
    pub available_rivers: Vec<RiverIdx>,
    pub slots: Vec<usize>,
    pub scores: Vec<u64>,
    /// The queue that scoring searches with.
    pub que: VecDeque<SiteIdx>,
    /// The marks that scoring searches with.
    pub marks: Vec<bool>,
}

/// The rivers of `rivers` that have no owner.
pub open spec fn unowned(rivers: Seq<River>) -> Set<RiverIdx> {
    Set::new(|r: RiverIdx| r < rivers.len() && rivers[r as int].owner is None)
}

/// How many of `rivers` have no owner.
pub open spec fn count_unowned(rivers: Seq<River>) -> nat
    decreases rivers.len(),
{
    if rivers.len() == 0 {
        0
    } else {
        count_unowned(rivers.drop_last()) + if rivers.last().owner is None {
            1nat
        } else {
            0nat
        }
    }
}

/// What is left of `available` once `actions` have been played in order.
pub open spec fn after_moves(available: Set<RiverIdx>, actions: Seq<RiverIdx>) -> Set<RiverIdx>
    decreases actions.len(),
{
    if actions.len() == 0 {
        available
    } else {
        after_moves(available, actions.drop_last()).remove(actions.last())
    }
}

/// Each of `actions` can be played when its turn comes: it is still
/// available after those before it.
pub open spec fn playable(available: Set<RiverIdx>, actions: Seq<RiverIdx>) -> bool {
    forall|i: int|
        0 <= i < actions.len() ==> after_moves(available, #[trigger] actions.take(i)).contains(
            actions[i],
        )
}

/// Every move strikes one river off: after any number of moves in a row the
/// available rivers are fewer by exactly that number.
pub proof fn lemma_moves_shrink_available(available: Set<RiverIdx>, actions: Seq<RiverIdx>)
    requires
        available.finite(),
        playable(available, actions),
    ensures
        after_moves(available, actions).finite(),
        after_moves(available, actions).len() == available.len() - actions.len(),
    decreases actions.len(),
{
    if actions.len() > 0 {
        let before = actions.drop_last();
        assert forall|i: int| 0 <= i < before.len() implies after_moves(
            available,
            #[trigger] before.take(i),
        ).contains(before[i]) by {
            assert(before.take(i) == actions.take(i));
        }
        lemma_moves_shrink_available(available, before);
        assert(actions.take(actions.len() - 1) == before);
    }
}

/// `list` holds exactly the rivers without an owner, each once, and `slots`
/// knows where.
pub open spec fn lists_unowned(rivers: Seq<River>, list: Seq<RiverIdx>, slots: Seq<usize>) -> bool {
    &&& slots.len() == rivers.len()
    &&& forall|k: int|
        0 <= k < list.len() ==> (#[trigger] list[k]) < rivers.len() && slots[list[k] as int] == k
            && rivers[list[k] as int].owner is None
    &&& forall|r: int|
        0 <= r < rivers.len() && (#[trigger] rivers[r]).owner is None ==> slots[r] < list.len()
            && list[slots[r] as int] == r
}

/// By how much `me` leads the first `upto` punters, summed over each of
/// them but `me`.
pub open spec fn lead_over(state: &Punter, holders: Seq<River>, me: PunterId, upto: int) -> int
    decreases upto,
{
    if upto <= 0 {
        0
    } else {
        lead_over(state, holders, me, upto - 1) + if upto - 1 == me {
            0
        } else {
            state.score_of(holders, me) - state.score_of(holders, (upto - 1) as PunterId)
        }
    }
}

/// A list that knows its slots holds no river twice, and holds as a set the
/// rivers without an owner.
pub proof fn lemma_lists_unowned(rivers: Seq<River>, list: Seq<RiverIdx>, slots: Seq<usize>)
    requires
        lists_unowned(rivers, list, slots),
        rivers.len() <= usize::MAX,
    ensures
        list.no_duplicates(),
        list.to_set() == unowned(rivers),
        list.len() <= rivers.len(),
{
    assert forall|i: int, j: int| 0 <= i < list.len() && 0 <= j < list.len() && i != j implies list[i]
        != list[j] by {
        assert(slots[list[i] as int] == i && slots[list[j] as int] == j);
    }
    assert forall|r: RiverIdx| list.to_set().contains(r) <==> unowned(rivers).contains(r) by {
        if list.contains(r) {
            let k = choose|k: int| 0 <= k < list.len() && list[k] == r;
            assert(list[k] < rivers.len());
        }
        if unowned(rivers).contains(r) {
            assert(rivers[r as int].owner is None);
            assert(list[slots[r as int] as int] == r);
        }
    }
    assert(list.to_set() =~= unowned(rivers));
    lemma_distinct_below(list, rivers.len() as int);
}

/// Striking the river at position `p` off the list, by moving the last
/// entry into its place, keeps the list in step with the board on which
/// that river has found an owner.
pub proof fn lemma_strike(
    rivers: Seq<River>,
    list: Seq<RiverIdx>,
    slots: Seq<usize>,
    p: int,
    taken: River,
)
    requires
        lists_unowned(rivers, list, slots),
        0 <= p < list.len(),
        taken.owner is Some,
    ensures
        lists_unowned(
            rivers.update(list[p] as int, taken),
            list.update(p, list.last()).drop_last(),
            slots.update(list.last() as int, p as usize),
        ),
{
    let river = list[p];
    let last = list.last();
    let new_rivers = rivers.update(river as int, taken);
    let new_list = list.update(p, last).drop_last();
    let new_slots = slots.update(last as int, p as usize);
    assert(slots[last as int] == list.len() - 1);
    assert forall|k: int| 0 <= k < new_list.len() implies (#[trigger] new_list[k]) < new_rivers.len()
        && new_slots[new_list[k] as int] == k && new_rivers[new_list[k] as int].owner is None by {
        if k == p {
            assert(new_list[k] == last);
            assert(list[list.len() - 1] == last);
            assert(last != river) by {
                assert(slots[list[p] as int] == p);
            }
        } else {
            assert(new_list[k] == list[k]);
            assert(slots[list[k] as int] == k);
            assert(list[k] != last);
            assert(list[k] != river);
        }
    }
    assert forall|r: int|
        0 <= r < new_rivers.len() && (#[trigger] new_rivers[r]).owner is None implies new_slots[r]
        < new_list.len() && new_list[new_slots[r] as int] == r by {
        assert(r != river);
        assert(rivers[r].owner is None);
        if r == last {
        } else {
            assert(slots[r] != list.len() - 1) by {
                assert(list[slots[r] as int] == r);
            }
        }
    }
}

/// Renting out a river that has an owner leaves the list of the rivers
/// without one as it is.
pub proof fn lemma_rent(
    rivers: Seq<River>,
    list: Seq<RiverIdx>,
    slots: Seq<usize>,
    river: int,
    taken: River,
)
    requires
        lists_unowned(rivers, list, slots),
        0 <= river < rivers.len(),
        rivers[river].owner is Some,
        taken.owner is Some,
    ensures
        lists_unowned(rivers.update(river, taken), list, slots),
{
    let new_rivers = rivers.update(river, taken);
    assert forall|k: int| 0 <= k < list.len() implies (#[trigger] list[k]) < new_rivers.len()
        && slots[list[k] as int] == k && new_rivers[list[k] as int].owner is None by {
        assert(rivers[list[k] as int].owner is None);
    }
    assert forall|r: int|
        0 <= r < new_rivers.len() && (#[trigger] new_rivers[r]).owner is None implies slots[r]
        < list.len() && list[slots[r] as int] == r by {
        assert(rivers[r].owner is None);
    }
}

impl<'a> InternalGameState<'a> {
    /// The buffers agree with each other and with the punter they belong
    /// to.
    pub open spec fn wf(&self) -> bool {
        &&& self.state.wf()
        &&& self.status != GameStatus::NotStarted ==> {
            &&& self.rivers@.len() == self.state.board().len()
            &&& rivers_wf(self.rivers@)
            &&& lists_unowned(self.rivers@, self.available_rivers@, self.slots@)
            &&& self.current_punter < self.state.input.punters
            &&& (self.status == GameStatus::Finished ==> self.available_rivers@.len() == 0)
        }
    }

    /// The rivers that can still be claimed.
    pub open spec fn available(&self) -> Set<RiverIdx> {
        self.available_rivers@.to_set()
    }

    /// A harness for `state`, not yet started.
    pub fn new(state: &'a Punter) -> (game: InternalGameState<'a>)
        requires
            state.wf(),
        ensures
            game.wf(),
            game.state == state,
            game.status == GameStatus::NotStarted,
            game.current_punter == state.input.punter,
    {
        let rivers = state.input.map.rivers.len();
        InternalGameState {
            state,
            status: GameStatus::NotStarted,
            current_punter: state.id(),
            rivers: Vec::with_capacity(rivers),
            available_rivers: Vec::with_capacity(rivers),
            slots: Vec::with_capacity(rivers),
            scores: Vec::with_capacity(state.input.punters),
            que: VecDeque::with_capacity(state.input.map.sites.len()),
            marks: Vec::with_capacity(state.input.map.sites.len()),
        }
    }

    /// Takes the board over from the punter and starts a match on it, with
    /// the punter itself to move.
    pub fn reset_game(&mut self)
        requires
            old(self).state.wf(),
        ensures
            final(self).wf(),
            final(self).state == old(self).state,
            final(self).status == GameStatus::Playing,
            final(self).current_punter == final(self).state.input.punter,
            final(self).rivers@ == final(self).state.board(),
            final(self).available() == unowned(final(self).state.board()),
            final(self).available_rivers@.no_duplicates(),
            final(self).available_rivers@.len() == count_unowned(final(self).state.board()),
    {
        let state = self.state;
        self.status = GameStatus::Playing;
        self.current_punter = state.id();
        self.rivers.clear();
        self.rivers.extend_from_slice(state.input.map.rivers.as_slice());
        assert(self.rivers@ == state.board());
        self.available_rivers.clear();
        self.slots.clear();
        let mut r: usize = 0;
        while r < self.rivers.len()
            invariant
                r <= self.rivers@.len(),
                self.state == old(self).state,
                self.state == state,
                self.status == GameStatus::Playing,
                self.current_punter == state.input.punter,
                self.rivers@ == state.board(),
                self.slots@.len() == r,
                lists_unowned(self.rivers@.take(r as int), self.available_rivers@, self.slots@),
                self.available_rivers@.len() == count_unowned(self.rivers@.take(r as int)),
            decreases self.rivers@.len() - r,
        {
            let ghost before = self.rivers@.take(r as int);
            let ghost after = self.rivers@.take(r + 1);
            let ghost old_list = self.available_rivers@;
            let ghost old_slots = self.slots@;
            let free = match self.rivers[r].owner {
                Some(_) => false,
                None => true,
            };
            self.slots.push(self.available_rivers.len());
            if free {
                self.available_rivers.push(r);
            }
            proof {
                let list = self.available_rivers@;
                let slots = self.slots@;
                assert(after.drop_last() == before);
                assert forall|k: int| 0 <= k < list.len() implies (#[trigger] list[k]) < after.len()
                    && slots[list[k] as int] == k && after[list[k] as int].owner is None by {
                    if k < old_list.len() {
                        assert(list[k] == old_list[k]);
                        assert(old_list[k] < before.len());
                        assert(old_slots[old_list[k] as int] == k);
                        assert(before[old_list[k] as int] == after[old_list[k] as int]);
                    }
                }
                assert forall|x: int|
                    0 <= x < after.len() && (#[trigger] after[x]).owner is None implies slots[x]
                    < list.len() && list[slots[x] as int] == x by {
                    if x < r {
                        assert(before[x] == after[x]);
                        assert(old_slots[x] < old_list.len());
                    }
                }
            }
            r += 1;
        }
        proof {
            assert(self.rivers@.take(r as int) == self.rivers@);
            lemma_lists_unowned(self.rivers@, self.available_rivers@, self.slots@);
        }
    }

    /// The rivers that can still be claimed, in no particular order.
    pub fn available_actions(&self) -> (list: &Vec<RiverIdx>)
        requires
            self.wf(),
            self.status != GameStatus::NotStarted,
        ensures
            list@ == self.available_rivers@,
            list@.to_set() == self.available(),
            list@.to_set() == unowned(self.rivers@),
            list@.no_duplicates(),
    {
        proof {
            assert(self.rivers@.len() == self.rivers.len());
            lemma_lists_unowned(self.rivers@, self.available_rivers@, self.slots@);
        }
        &self.available_rivers
    }

    /// The punter to move takes a share of `river`, the ownership if it is
    /// free and the rent otherwise, and the turn passes on. A river that has
    /// found its owner is struck off the list of available rivers.
    pub fn make_move(&mut self, river: RiverIdx)
        requires
            old(self).wf(),
            old(self).status == GameStatus::Playing,
            river < old(self).rivers@.len(),
            old(self).rivers@[river as int].admits(old(self).current_punter),
        ensures
            final(self).wf(),
            final(self).state == old(self).state,
            final(self).rivers@ == old(self).rivers@.update(
                river as int,
                old(self).rivers@[river as int].with_holder(old(self).current_punter),
            ),
            final(self).available() == old(self).available().remove(river),
            old(self).available().contains(river)
                ==> final(self).available_rivers@.len() == old(self).available_rivers@.len() - 1,
            !old(self).available().contains(river)
                ==> final(self).available_rivers@ == old(self).available_rivers@,
            final(self).current_punter == (old(self).current_punter + 1) % (
            final(self).state.input.punters as int),
            final(self).status == if final(self).available_rivers@.len() == 0 {
                GameStatus::Finished
            } else {
                GameStatus::Playing
            },
    {
        let ghost old_list = self.available_rivers@;
        let ghost old_rivers = self.rivers@;
        proof {
            assert(self.rivers@.len() == self.rivers.len());
            lemma_lists_unowned(old_rivers, old_list, self.slots@);
            assert(old_rivers[river as int].wf());
        }
        let slot = self.slots[river];
        let listed = slot < self.available_rivers.len() && self.available_rivers[slot] == river;
        proof {
            if listed {
                assert(old_list.contains(old_list[slot as int]));
            }
            assert(listed <==> old_rivers[river as int].owner is None);
        }
        let mut taken = self.rivers[river];
        taken.add_owner(self.current_punter);
        self.rivers[river] = taken;
        if listed {
            let last = self.available_rivers[self.available_rivers.len() - 1];
            self.available_rivers.swap_remove(slot);
            self.slots[last] = slot;
            proof {
                lemma_strike(old_rivers, old_list, old(self).slots@, slot as int, taken);
            }
        } else {
            proof {
                lemma_rent(old_rivers, old_list, old(self).slots@, river as int, taken);
            }
        }
        self.current_punter = (self.current_punter + 1) % self.state.input.punters;
        if self.available_rivers.is_empty() {
            self.status = GameStatus::Finished;
        }
        proof {
            assert(self.rivers@.len() == self.rivers.len());
            lemma_lists_unowned(self.rivers@, self.available_rivers@, self.slots@);
            assert(self.available() =~= old(self).available().remove(river));
            assert forall|k: int| 0 <= k < self.rivers@.len() implies (
            #[trigger] self.rivers@[k]).wf() by {
                if k != river {
                    assert(old_rivers[k].wf());
                }
            }
        }
    }

    /// By how much the punter leads its opponents, summed over all of them,
    /// on the board as it stands. Divided by the number of opponents this
    /// is the mean lead.
    pub fn score(&mut self) -> (lead: i128)
        requires
            old(self).wf(),
            old(self).status != GameStatus::NotStarted,
        ensures
            final(self).wf(),
            final(self).state == old(self).state,
            final(self).status == old(self).status,
            final(self).current_punter == old(self).current_punter,
            final(self).rivers@ == old(self).rivers@,
            final(self).available_rivers@ == old(self).available_rivers@,
            final(self).slots@ == old(self).slots@,
            lead == lead_over(
                final(self).state,
                final(self).rivers@,
                final(self).state.input.punter,
                final(self).state.input.punters as int,
            ),
            -(u64::MAX as int) <= lead <= u64::MAX,
    {
        let state = self.state;
        state.compute_scores_in(&self.rivers, &mut self.scores, &mut self.que, &mut self.marks);
        let me = state.id();
        let punters = self.scores.len();
        let mine = self.scores[me];
        let ghost holders = self.rivers@;
        let ghost cap = state.input.map.mines@.len() * (state.n_sites() * state.n_sites()
            * state.n_sites());
        proof {
            lemma_score_cap(state, holders, me);
        }
        let mut lead: i128 = 0;
        let mut q: usize = 0;
        while q < punters
            invariant
                q <= punters,
                state.wf(),
                state == self.state,
                holders == self.rivers@,
                me == state.input.punter,
                punters == state.input.punters,
                self.scores@.len() == punters,
                forall|p: int|
                    0 <= p < punters ==> #[trigger] self.scores@[p] == state.score_of(
                        holders,
                        p as PunterId,
                    ),
                mine == state.score_of(holders, me),
                cap == state.input.map.mines@.len() * (state.n_sites() * state.n_sites()
                    * state.n_sites()),
                0 <= mine <= cap,
                lead == lead_over(state, holders, me, q as int),
                -(q * cap) <= lead <= q * cap,
            decreases punters - q,
        {
            proof {
                lemma_score_cap(state, holders, q);
                lemma_lead_fits(q as int, punters as int, cap, state);
            }
            if q != me {
                lead = lead + (mine as i128 - self.scores[q] as i128);
            }
            q += 1;
        }
        proof {
            lemma_lead_fits(punters as int, punters as int + 1, cap, state);
        }
        lead
    }
}

/// No score exceeds the cube of the number of sites for every mine.
pub proof fn lemma_score_cap(state: &Punter, holders: Seq<River>, punter: PunterId)
    requires
        state.wf(),
    ensures
        0 <= state.score_of(holders, punter) <= state.input.map.mines@.len() * (state.n_sites()
            * state.n_sites() * state.n_sites()),
{
    let ends = state.board();
    let n = state.n_sites();
    assert(rivers_in_range(ends, n)) by {
        assert forall|r: int| 0 <= r < ends.len() implies (#[trigger] ends[r]).source_idx < n
            && ends[r].target_idx < n by {
            assert(river_indexed(state.input.map.sites@, ends[r]));
        }
    }
    lemma_total_score_bound(
        ends,
        holders,
        punter,
        n,
        mine_positions(state.site_index@, state.input.map.mines@),
        state.shortest_paths@,
        state.input.map.mines@.len() as int,
    );
}

/// The leads over fewer opponents than there are punters sum to no more
/// than the score type holds.
proof fn lemma_lead_fits(q: int, punters: int, cap: int, state: &Punter)
    requires
        state.wf(),
        0 <= q < punters,
        punters <= state.input.punters + 1,
        cap == state.input.map.mines@.len() * (state.n_sites() * state.n_sites() * state.n_sites()),
    ensures
        0 <= q * cap,
        (q + 1) * cap == q * cap + cap,
        q < state.input.punters ==> (q + 1) * cap <= u64::MAX,
        q * cap <= u64::MAX,
{
    let n = state.n_sites();
    let m = state.input.map.mines@.len() as int;
    let p = state.input.punters as int;
    assert(fits_scores(p, m, n));
    assert(0 <= q * cap && (q + 1) * cap == q * cap + cap && (q < p ==> (q + 1) * cap <= n * n * n
        * m * p) && q * cap <= n * n * n * m * p) by (nonlinear_arith)
        requires
            0 <= q <= p,
            0 <= m,
            0 <= n,
            cap == m * (n * n * n),
    ;
}

} // verus!
