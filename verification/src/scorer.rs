//! Scores: for every mine, the squared hop counts of the sites that a punter
//! reaches from it along rivers of its own.

use crate::distance::{
    adjacent, is_distance_row, is_distance_table, is_walk, lemma_walk_bounds_distance,
    mine_positions, order_valid, UNREACHED,
};
use crate::graph::{is_incidence_list, multiplicity, rivers_in_range};
use crate::punter::Punter;
use crate::river::{PunterId, River, RiverIdx, SiteIdx};
use crate::setup::{fits_scores, has_site, river_indexed};
use crate::util::{lemma_distinct_below, reset_marks};
use std::collections::VecDeque;
use vstd::prelude::*;

verus! {

broadcast use {
    vstd::std_specs::hash::group_hash_axioms,
    vstd::seq_lib::group_to_multiset_ensures,
};

/// Some river that `punter` holds joins `u` and `v`. Where the rivers run is
/// read from `ends`, who holds them from `holders`.
pub open spec fn owned_adjacent(
    ends: Seq<River>,
    holders: Seq<River>,
    punter: PunterId,
    u: int,
    v: int,
) -> bool {
    exists|r: int|
        0 <= r < ends.len() && (#[trigger] ends[r]).joins(u, v) && holders[r].held_by(punter)
}

/// `walk` is a sequence of sites in which each is joined to the next by a
/// river that `punter` holds.
pub open spec fn is_owned_walk(
    ends: Seq<River>,
    holders: Seq<River>,
    punter: PunterId,
    n: int,
    walk: Seq<int>,
) -> bool {
    &&& walk.len() >= 1
    &&& forall|i: int| 0 <= i < walk.len() ==> 0 <= #[trigger] walk[i] < n
    &&& forall|i: int|
        0 <= i < walk.len() - 1 ==> owned_adjacent(ends, holders, punter, #[trigger] walk[i], walk[i + 1])
}

/// `punter` can travel from `from` to `to` along rivers of its own.
pub open spec fn reaches(
    ends: Seq<River>,
    holders: Seq<River>,
    punter: PunterId,
    n: int,
    from: int,
    to: int,
) -> bool {
    exists|walk: Seq<int>|
        #[trigger] is_owned_walk(ends, holders, punter, n, walk) && walk.first() == from
            && walk.last() == to
}

/// What the mine at `root` earns `punter` from the sites below `upto`: the
/// squared hop count of each one that the punter reaches.
pub open spec fn mine_score(
    ends: Seq<River>,
    holders: Seq<River>,
    punter: PunterId,
    n: int,
    root: int,
    row: Seq<usize>,
    upto: int,
) -> int
    decreases upto,
{
    if upto <= 0 {
        0
    } else {
        mine_score(ends, holders, punter, n, root, row, upto - 1) + if reaches(
            ends,
            holders,
            punter,
            n,
            root,
            upto - 1,
        ) {
            row[upto - 1] * row[upto - 1]
        } else {
            0
        }
    }
}

/// What the first `upto` mines earn `punter`.
pub open spec fn total_score(
    ends: Seq<River>,
    holders: Seq<River>,
    punter: PunterId,
    n: int,
    mine_sites: Seq<int>,
    table: Seq<Vec<usize>>,
    upto: int,
) -> int
    decreases upto,
{
    if upto <= 0 {
        0
    } else {
        total_score(ends, holders, punter, n, mine_sites, table, upto - 1) + mine_score(
            ends,
            holders,
            punter,
            n,
            mine_sites[upto - 1],
            table[upto - 1]@,
            n,
        )
    }
}

/// Every river that `punter` holds at `u` leads to a marked site.
pub open spec fn closed_at(
    ends: Seq<River>,
    holders: Seq<River>,
    punter: PunterId,
    marks: Seq<bool>,
    u: int,
) -> bool {
    forall|r: int|
        0 <= r < ends.len() && (#[trigger] ends[r]).touches(u) && holders[r].held_by(punter)
            ==> marks[ends[r].across(u)]
}

/// A walk along the punter's own rivers is a walk.
pub proof fn lemma_owned_walk_is_walk(
    ends: Seq<River>,
    holders: Seq<River>,
    punter: PunterId,
    n: int,
    walk: Seq<int>,
)
    requires
        is_owned_walk(ends, holders, punter, n, walk),
    ensures
        is_walk(ends, n, walk),
{
    assert forall|i: int| 0 <= i < walk.len() - 1 implies adjacent(ends, #[trigger] walk[i], walk[i + 1]) by {
        assert(owned_adjacent(ends, holders, punter, walk[i], walk[i + 1]));
        let r = choose|r: int|
            0 <= r < ends.len() && (#[trigger] ends[r]).joins(walk[i], walk[i + 1])
                && holders[r].held_by(punter);
        assert(ends[r].joins(walk[i], walk[i + 1]));
    }
}

/// A site that a punter reaches from a mine along rivers of its own is
/// reached from the mine on the whole map, and is fewer than `n` hops away.
pub proof fn lemma_reached_is_near(
    ends: Seq<River>,
    holders: Seq<River>,
    punter: PunterId,
    n: int,
    root: int,
    row: Seq<usize>,
    v: int,
)
    requires
        is_distance_row(ends, n, root, row),
        rivers_in_range(ends, n),
        reaches(ends, holders, punter, n, root, v),
    ensures
        0 <= v < n,
        row[v] != UNREACHED,
        row[v] < n,
{
    let walk = choose|walk: Seq<int>|
        #[trigger] is_owned_walk(ends, holders, punter, n, walk) && walk.first() == root
            && walk.last() == v;
    lemma_owned_walk_is_walk(ends, holders, punter, n, walk);
    lemma_walk_bounds_distance(ends, n, root, row, walk);
    assert(0 <= walk[walk.len() - 1] < n);
}

/// A site that no walk from a mine ends at earns no punter anything from
/// that mine, whoever holds the rivers around it: no punter reaches it.
pub proof fn lemma_cut_off_site_scores_nothing(
    ends: Seq<River>,
    holders: Seq<River>,
    punter: PunterId,
    n: int,
    root: int,
    v: int,
)
    requires
        forall|walk: Seq<int>|
            #[trigger] is_walk(ends, n, walk) && walk.first() == root ==> walk.last() != v,
    ensures
        !reaches(ends, holders, punter, n, root, v),
{
    if reaches(ends, holders, punter, n, root, v) {
        let walk = choose|walk: Seq<int>|
            #[trigger] is_owned_walk(ends, holders, punter, n, walk) && walk.first() == root
                && walk.last() == v;
        lemma_owned_walk_is_walk(ends, holders, punter, n, walk);
    }
}

/// A punter that can travel to `u` and holds a river from `u` to `v` can
/// travel to `v`.
pub proof fn lemma_reach_step(
    ends: Seq<River>,
    holders: Seq<River>,
    punter: PunterId,
    n: int,
    root: int,
    u: int,
    v: int,
)
    requires
        reaches(ends, holders, punter, n, root, u),
        owned_adjacent(ends, holders, punter, u, v),
        0 <= v < n,
    ensures
        reaches(ends, holders, punter, n, root, v),
{
    let walk = choose|walk: Seq<int>|
        #[trigger] is_owned_walk(ends, holders, punter, n, walk) && walk.first() == root
            && walk.last() == u;
    let longer = walk.push(v);
    assert forall|i: int| 0 <= i < longer.len() - 1 implies owned_adjacent(
        ends,
        holders,
        punter,
        #[trigger] longer[i],
        longer[i + 1],
    ) by {
        if i < walk.len() - 1 {
            assert(owned_adjacent(ends, holders, punter, walk[i], walk[i + 1]));
        }
    }
    assert(is_owned_walk(ends, holders, punter, n, longer));
    assert(longer.first() == root && longer.last() == v);
}

/// Every site is reached from itself.
pub proof fn lemma_reach_self(
    ends: Seq<River>,
    holders: Seq<River>,
    punter: PunterId,
    n: int,
    root: int,
)
    requires
        0 <= root < n,
    ensures
        reaches(ends, holders, punter, n, root, root),
{
    let walk = seq![root];
    assert(is_owned_walk(ends, holders, punter, n, walk));
    assert(walk.first() == root && walk.last() == root);
}

/// Marks that hold the root and are closed under the punter's rivers hold
/// every site that a walk along those rivers ends at.
pub proof fn lemma_closed_covers(
    ends: Seq<River>,
    holders: Seq<River>,
    punter: PunterId,
    n: int,
    root: int,
    marks: Seq<bool>,
    walk: Seq<int>,
)
    requires
        marks.len() == n,
        0 <= root < n,
        marks[root],
        forall|u: int| 0 <= u < n && marks[u] ==> #[trigger] closed_at(ends, holders, punter, marks, u),
        is_owned_walk(ends, holders, punter, n, walk),
        walk.first() == root,
    ensures
        marks[walk.last()],
    decreases walk.len(),
{
    if walk.len() > 1 {
        let shorter = walk.drop_last();
        assert forall|i: int| 0 <= i < shorter.len() - 1 implies owned_adjacent(
            ends,
            holders,
            punter,
            #[trigger] shorter[i],
            shorter[i + 1],
        ) by {
            assert(shorter[i] == walk[i] && shorter[i + 1] == walk[i + 1]);
            assert(owned_adjacent(ends, holders, punter, walk[i], walk[i + 1]));
        }
        assert forall|i: int| 0 <= i < shorter.len() implies 0 <= #[trigger] shorter[i] < n by {
            assert(shorter[i] == walk[i]);
        }
        lemma_closed_covers(ends, holders, punter, n, root, marks, shorter);
        let u = walk[walk.len() - 2];
        let v = walk.last();
        assert(shorter.last() == u);
        assert(0 <= walk[walk.len() - 2] < n);
        assert(owned_adjacent(ends, holders, punter, walk[walk.len() - 2], walk[walk.len() - 2 + 1]));
        let r = choose|r: int|
            0 <= r < ends.len() && (#[trigger] ends[r]).joins(u, v) && holders[r].held_by(punter);
        assert(closed_at(ends, holders, punter, marks, u));
        assert(ends[r].touches(u) && ends[r].across(u) == v);
    }
}

/// A mine earns a punter nothing where the punter holds no river at the
/// mine: all it reaches is the mine itself, at distance zero.
pub proof fn lemma_bare_mine_scores_nothing(
    ends: Seq<River>,
    holders: Seq<River>,
    punter: PunterId,
    n: int,
    root: int,
    row: Seq<usize>,
    upto: int,
)
    requires
        is_distance_row(ends, n, root, row),
        holders.len() >= ends.len(),
        upto <= n,
        forall|r: int|
            0 <= r < ends.len() && (#[trigger] ends[r]).touches(root) ==> !holders[r].held_by(punter),
    ensures
        mine_score(ends, holders, punter, n, root, row, upto) == 0,
    decreases upto,
{
    if upto > 0 {
        lemma_bare_mine_scores_nothing(ends, holders, punter, n, root, row, upto - 1);
        let v = upto - 1;
        if reaches(ends, holders, punter, n, root, v) && v != root {
            let walk = choose|walk: Seq<int>|
                #[trigger] is_owned_walk(ends, holders, punter, n, walk) && walk.first() == root
                    && walk.last() == v;
            assert(walk.len() > 1);
            assert(owned_adjacent(ends, holders, punter, walk[0int], walk[0int + 1]));
            let r = choose|r: int|
                0 <= r < ends.len() && (#[trigger] ends[r]).joins(walk[0], walk[1])
                    && holders[r].held_by(punter);
            assert(ends[r].touches(root));
            assert(false);
        }
        if v == root {
            let d = row[v] as int;
            assert(d * d == 0) by (nonlinear_arith)
                requires
                    d == 0,
            ;
        }
    }
}

/// A mine at which no river ends earns no punter anything.
pub proof fn lemma_lonely_mine_scores_nothing(
    ends: Seq<River>,
    holders: Seq<River>,
    punter: PunterId,
    n: int,
    root: int,
    row: Seq<usize>,
)
    requires
        is_distance_row(ends, n, root, row),
        holders.len() >= ends.len(),
        forall|r: int| 0 <= r < ends.len() ==> !(#[trigger] ends[r]).touches(root),
    ensures
        mine_score(ends, holders, punter, n, root, row, n) == 0,
{
    lemma_bare_mine_scores_nothing(ends, holders, punter, n, root, row, n);
}

/// What a mine earns from the sites below `upto` is at most `upto` squares
/// of `n`.
pub proof fn lemma_mine_score_bound(
    ends: Seq<River>,
    holders: Seq<River>,
    punter: PunterId,
    n: int,
    root: int,
    row: Seq<usize>,
    upto: int,
)
    requires
        is_distance_row(ends, n, root, row),
        rivers_in_range(ends, n),
        0 <= upto <= n,
    ensures
        0 <= mine_score(ends, holders, punter, n, root, row, upto) <= upto * (n * n),
    decreases upto,
{
    if upto > 0 {
        lemma_mine_score_bound(ends, holders, punter, n, root, row, upto - 1);
        let v = upto - 1;
        if reaches(ends, holders, punter, n, root, v) {
            lemma_reached_is_near(ends, holders, punter, n, root, row, v);
            let d = row[v] as int;
            assert(0 <= d * d <= n * n) by (nonlinear_arith)
                requires
                    0 <= d < n,
            ;
        }
        assert((upto - 1) * (n * n) + n * n == upto * (n * n)) by (nonlinear_arith);
        assert(0 <= n * n) by (nonlinear_arith);
    }
}

/// What the first `upto` mines earn is at most `upto` cubes of `n`.
pub proof fn lemma_total_score_bound(
    ends: Seq<River>,
    holders: Seq<River>,
    punter: PunterId,
    n: int,
    mine_sites: Seq<int>,
    table: Seq<Vec<usize>>,
    upto: int,
)
    requires
        is_distance_table(ends, n, mine_sites, table),
        rivers_in_range(ends, n),
        0 <= upto <= table.len(),
    ensures
        0 <= total_score(ends, holders, punter, n, mine_sites, table, upto) <= upto * (n * n * n),
    decreases upto,
{
    if upto > 0 {
        lemma_total_score_bound(ends, holders, punter, n, mine_sites, table, upto - 1);
        assert(is_distance_row(ends, n, mine_sites[upto - 1], table[upto - 1]@));
        lemma_mine_score_bound(
            ends,
            holders,
            punter,
            n,
            mine_sites[upto - 1],
            table[upto - 1]@,
            n,
        );
        let earned = mine_score(ends, holders, punter, n, mine_sites[upto - 1], table[upto - 1]@, n);
        let cube = n * n * n;
        assert(0 <= earned <= n * (n * n));
        assert(n * (n * n) == cube) by (nonlinear_arith)
            requires
                cube == n * n * n,
        ;
        assert((upto - 1) * cube + cube == upto * cube) by (nonlinear_arith);
        assert(total_score(ends, holders, punter, n, mine_sites, table, upto) == total_score(
            ends,
            holders,
            punter,
            n,
            mine_sites,
            table,
            upto - 1,
        ) + earned);
    } else {
        assert(upto * (n * n * n) == 0) by (nonlinear_arith)
            requires
                upto == 0,
        ;
    }
}

/// A running total of `done` whole mines and part of one more stays within
/// the score type on a map whose scores fit.
proof fn lemma_partial_fits(done: int, part: int, upto: int, n: int, mines: int, punters: int)
    requires
        fits_scores(punters, mines, n),
        punters >= 1,
        0 <= done < mines,
        0 <= upto <= n,
        0 <= part <= upto * (n * n),
    ensures
        done * (n * n * n) + part <= u64::MAX,
{
    assert(done * (n * n * n) + part <= n * n * n * mines * punters) by (nonlinear_arith)
        requires
            punters >= 1,
            0 <= done < mines,
            0 <= upto <= n,
            0 <= part <= upto * (n * n),
    ;
}

impl Punter {
    /// The number of sites.
    pub open spec fn n_sites(&self) -> int {
        self.input.map.sites@.len() as int
    }

    /// The score of `punter` on the board `holders`: over every mine, the
    /// squared hop counts of the sites that the punter reaches from it.
    pub open spec fn score_of(&self, holders: Seq<River>, punter: PunterId) -> int {
        total_score(
            self.board(),
            holders,
            punter,
            self.n_sites(),
            mine_positions(self.site_index@, self.input.map.mines@),
            self.shortest_paths@,
            self.input.map.mines@.len() as int,
        )
    }

    /// Marks the sites that `punter` reaches from `root` along rivers that
    /// it holds in `rivers`.
    pub fn mark_reached(
        &self,
        rivers: &Vec<River>,
        punter: PunterId,
        root: SiteIdx,
        que: &mut VecDeque<SiteIdx>,
        marks: &mut Vec<bool>,
    )
        requires
            self.wf(),
            rivers@.len() >= self.board().len(),
            root < self.n_sites(),
        ensures
            final(marks)@.len() == self.n_sites(),
            forall|v: int|
                0 <= v < self.n_sites() ==> (#[trigger] final(marks)@[v] <==> reaches(
                    self.board(),
                    rivers@,
                    punter,
                    self.n_sites(),
                    root as int,
                    v,
                )),
    {
        let n = self.input.map.sites.len();
        let ghost ends = self.board();
        let ghost holders = rivers@;
        assert(ends.len() == self.input.map.rivers.len());
        reset_marks(marks, n);
        marks[root] = true;
        que.clear();
        que.push_back(root);
        let ghost mut order: Seq<SiteIdx> = seq![root];
        let ghost mut head: int = 0;
        proof {
            assert(order[0] == root);
            assert(que@ == order.skip(0));
            lemma_reach_self(ends, holders, punter, n as int, root as int);
            assert forall|v: int| 0 <= v < n implies (#[trigger] marks@[v] <==> order.contains(
                v as usize,
            )) by {
                if order.contains(v as usize) {
                    let i = choose|i: int| 0 <= i < order.len() && order[i] == v as usize;
                    assert(i == 0);
                }
            }
        }
        while que.len() > 0
            invariant
                self.wf(),
                n == self.n_sites(),
                ends == self.board(),
                holders == rivers@,
                holders.len() >= ends.len(),
                ends.len() <= usize::MAX,
                root < n,
                marks@.len() == n,
                marks@[root as int],
                order_valid(order, n as int),
                0 <= head <= order.len(),
                order.len() <= n,
                que@ == order.skip(head),
                forall|v: int| 0 <= v < n ==> (#[trigger] marks@[v] <==> order.contains(v as usize)),
                forall|v: int|
                    0 <= v < n && #[trigger] marks@[v] ==> reaches(
                        ends,
                        holders,
                        punter,
                        n as int,
                        root as int,
                        v,
                    ),
                forall|i: int|
                    0 <= i < head ==> closed_at(ends, holders, punter, marks@, #[trigger] order[i] as int),
            decreases n - head,
        {
            let site = que.pop_front().unwrap();
            assert(site == order[head]);
            assert(que@ == order.skip(head + 1));
            assert(order.contains(order[head]));
            let list = &self.edges[site];
            assert(is_incidence_list(ends, site as int, list@));
            let mut k: usize = 0;
            while k < list.len()
                invariant
                    self.wf(),
                    k <= list@.len(),
                    n == self.n_sites(),
                    ends == self.board(),
                    holders == rivers@,
                    holders.len() >= ends.len(),
                    root < n,
                    site < n,
                    is_incidence_list(ends, site as int, list@),
                    marks@.len() == n,
                    marks@[root as int],
                    marks@[site as int],
                    order_valid(order, n as int),
                    0 <= head < order.len(),
                    site == order[head],
                    order.len() <= n,
                    que@ == order.skip(head + 1),
                    forall|v: int|
                        0 <= v < n ==> (#[trigger] marks@[v] <==> order.contains(v as usize)),
                    forall|v: int|
                        0 <= v < n && #[trigger] marks@[v] ==> reaches(
                            ends,
                            holders,
                            punter,
                            n as int,
                            root as int,
                            v,
                        ),
                    forall|i: int|
                        0 <= i < head ==> closed_at(
                            ends,
                            holders,
                            punter,
                            marks@,
                            #[trigger] order[i] as int,
                        ),
                    forall|j: int|
                        0 <= j < k && holders[#[trigger] list@[j] as int].held_by(punter)
                            ==> marks@[ends[list@[j] as int].across(site as int)],
                decreases list@.len() - k,
            {
                let river: RiverIdx = list[k];
                if rivers[river].is_held_by(punter) {
                    let neighbor = self.input.river_other_index(river, site);
                    proof {
                        assert(river_indexed(self.input.map.sites@, ends[river as int]));
                        assert(ends[river as int].joins(site as int, neighbor as int));
                        assert(owned_adjacent(ends, holders, punter, site as int, neighbor as int));
                        lemma_reach_step(
                            ends,
                            holders,
                            punter,
                            n as int,
                            root as int,
                            site as int,
                            neighbor as int,
                        );
                    }
                    if !marks[neighbor] {
                        let ghost old_marks = marks@;
                        let ghost old_order = order;
                        marks[neighbor] = true;
                        que.push_back(neighbor);
                        proof {
                            order = order.push(neighbor);
                            assert(que@ == order.skip(head + 1));
                            lemma_marks_grow(old_marks, old_order, n as int, neighbor as int);
                            assert forall|i: int| 0 <= i < head implies closed_at(
                                ends,
                                holders,
                                punter,
                                marks@,
                                #[trigger] order[i] as int,
                            ) by {
                                assert(order[i] == old_order[i]);
                                assert(closed_at(
                                    ends,
                                    holders,
                                    punter,
                                    old_marks,
                                    old_order[i] as int,
                                ));
                                lemma_closed_kept(
                                    ends,
                                    holders,
                                    punter,
                                    n as int,
                                    old_marks,
                                    old_order[i] as int,
                                    neighbor as int,
                                );
                            }
                        }
                    }
                }
                k += 1;
            }
            proof {
                assert(closed_at(ends, holders, punter, marks@, site as int)) by {
                    assert forall|r: int|
                        0 <= r < ends.len() && (#[trigger] ends[r]).touches(site as int)
                            && holders[r].held_by(punter) implies marks@[ends[r].across(
                        site as int,
                    )] by {
                        assert(multiplicity(ends[r], site as int) > 0);
                        assert(list@.to_multiset().count(r as usize) > 0);
                        assert(list@.contains(r as usize));
                        let j = choose|j: int| 0 <= j < list@.len() && list@[j] == r as usize;
                        assert(holders[list@[j] as int].held_by(punter));
                    }
                }
                head = head + 1;
            }
        }
        proof {
            assert(head == order.len()) by {
                assert(order.skip(head).len() == 0);
            }
            assert forall|u: int| 0 <= u < n && marks@[u] implies #[trigger] closed_at(
                ends,
                holders,
                punter,
                marks@,
                u,
            ) by {
                assert(order.contains(u as usize));
                let i = choose|i: int| 0 <= i < order.len() && order[i] == u as usize;
                assert(closed_at(ends, holders, punter, marks@, order[i] as int));
            }
            assert forall|v: int| 0 <= v < n && reaches(
                ends,
                holders,
                punter,
                n as int,
                root as int,
                v,
            ) implies #[trigger] marks@[v] by {
                let walk = choose|walk: Seq<int>|
                    #[trigger] is_owned_walk(ends, holders, punter, n as int, walk) && walk.first()
                        == root as int && walk.last() == v;
                lemma_closed_covers(ends, holders, punter, n as int, root as int, marks@, walk);
            }
        }
    }

    /// The score of every punter on the board `rivers`, which holds the
    /// rivers of this match in their order.
    pub fn compute_scores(&self, rivers: &Vec<River>, scores: &mut Vec<u64>)
        requires
            self.wf(),
            rivers@.len() >= self.board().len(),
        ensures
            final(scores)@.len() == self.input.punters,
            forall|p: int|
                0 <= p < self.input.punters ==> #[trigger] final(scores)@[p] == self.score_of(
                    rivers@,
                    p as PunterId,
                ),
    {
        let n = self.input.map.sites.len();
        let mut que: VecDeque<SiteIdx> = VecDeque::with_capacity(n);
        let mut marks: Vec<bool> = Vec::with_capacity(n);
        self.compute_scores_in(rivers, scores, &mut que, &mut marks);
    }

    /// As `compute_scores`, with the queue and the marks of the search in
    /// buffers of the caller, so that scoring again and again allocates
    /// nothing once the buffers have grown to the number of sites.
    pub fn compute_scores_in(
        &self,
        rivers: &Vec<River>,
        scores: &mut Vec<u64>,
        que: &mut VecDeque<SiteIdx>,
        marks: &mut Vec<bool>,
    )
        requires
            self.wf(),
            rivers@.len() >= self.board().len(),
        ensures
            final(scores)@.len() == self.input.punters,
            forall|p: int|
                0 <= p < self.input.punters ==> #[trigger] final(scores)@[p] == self.score_of(
                    rivers@,
                    p as PunterId,
                ),
    {
        let n = self.input.map.sites.len();
        let mines = self.input.map.mines.len();
        let ghost ends = self.board();
        let ghost holders = rivers@;
        let ghost mine_sites = mine_positions(self.site_index@, self.input.map.mines@);
        let ghost table = self.shortest_paths@;
        proof {
            assert(rivers_in_range(ends, n as int)) by {
                assert forall|r: int| 0 <= r < ends.len() implies (#[trigger] ends[r]).source_idx < n
                    && ends[r].target_idx < n by {
                    assert(river_indexed(self.input.map.sites@, ends[r]));
                }
            }
        }
        scores.clear();
        let mut punter: PunterId = 0;
        while punter < self.input.punters
            invariant
                self.wf(),
                punter <= self.input.punters,
                n == self.n_sites(),
                mines == self.input.map.mines@.len(),
                ends == self.board(),
                holders == rivers@,
                holders.len() >= ends.len(),
                mine_sites == mine_positions(self.site_index@, self.input.map.mines@),
                table == self.shortest_paths@,
                rivers_in_range(ends, n as int),
                scores@.len() == punter,
                forall|p: int|
                    0 <= p < punter ==> #[trigger] scores@[p] == self.score_of(
                        holders,
                        p as PunterId,
                    ),
            decreases self.input.punters - punter,
        {
            let mut total: u64 = 0;
            let mut m: usize = 0;
            while m < mines
                invariant
                    self.wf(),
                    punter < self.input.punters,
                    m <= mines,
                    n == self.n_sites(),
                    mines == self.input.map.mines@.len(),
                    ends == self.board(),
                    holders == rivers@,
                    holders.len() >= ends.len(),
                    mine_sites == mine_positions(self.site_index@, self.input.map.mines@),
                    table == self.shortest_paths@,
                    rivers_in_range(ends, n as int),
                    total == total_score(ends, holders, punter, n as int, mine_sites, table, m as int),
                decreases mines - m,
            {
                let mine = self.input.map.mines[m];
                proof {
                    assert(has_site(self.input.map.sites@, self.input.map.mines@[m as int]));
                }
                let root = match self.site_index.get(&mine) {
                    Some(root) => *root,
                    None => {
                        assert(false);
                        0
                    },
                };
                assert(root as int == mine_sites[m as int]);
                self.mark_reached(rivers, punter, root, que, marks);
                let row = &self.shortest_paths[m];
                proof {
                    assert(is_distance_row(ends, n as int, root as int, row@));
                    lemma_total_score_bound(
                        ends,
                        holders,
                        punter,
                        n as int,
                        mine_sites,
                        table,
                        m as int,
                    );
                }
                let ghost before = total;
                let mut v: usize = 0;
                while v < n
                    invariant
                        self.wf(),
                        punter < self.input.punters,
                        m < mines,
                        v <= n,
                        n == self.n_sites(),
                        mines == self.input.map.mines@.len(),
                        ends == self.board(),
                        holders == rivers@,
                        rivers_in_range(ends, n as int),
                        marks@.len() == n,
                        row@.len() == n,
                        is_distance_row(ends, n as int, root as int, row@),
                        forall|w: int|
                            0 <= w < n ==> (#[trigger] marks@[w] <==> reaches(
                                ends,
                                holders,
                                punter,
                                n as int,
                                root as int,
                                w,
                            )),
                        0 <= before <= m * (n * n * n),
                        total == before + mine_score(
                            ends,
                            holders,
                            punter,
                            n as int,
                            root as int,
                            row@,
                            v as int,
                        ),
                    decreases n - v,
                {
                    proof {
                        lemma_mine_score_bound(
                            ends,
                            holders,
                            punter,
                            n as int,
                            root as int,
                            row@,
                            v + 1,
                        );
                        lemma_partial_fits(
                            m as int,
                            mine_score(ends, holders, punter, n as int, root as int, row@, v + 1),
                            v + 1,
                            n as int,
                            mines as int,
                            self.input.punters as int,
                        );
                        lemma_mine_score_bound(
                            ends,
                            holders,
                            punter,
                            n as int,
                            root as int,
                            row@,
                            v as int,
                        );
                    }
                    if marks[v] {
                        proof {
                            lemma_reached_is_near(
                                ends,
                                holders,
                                punter,
                                n as int,
                                root as int,
                                row@,
                                v as int,
                            );
                        }
                        let hops = row[v] as u64;
                        assert(hops * hops == row@[v as int] * row@[v as int]);
                        assert(before + mine_score(
                            ends,
                            holders,
                            punter,
                            n as int,
                            root as int,
                            row@,
                            v + 1,
                        ) <= u64::MAX);
                        total = total + hops * hops;
                    }
                    v += 1;
                }
                m += 1;
            }
            scores.push(total);
            punter += 1;
        }
    }
}

/// Marking an unmarked site and listing it keeps marks and list in step.
proof fn lemma_marks_grow(marks: Seq<bool>, order: Seq<SiteIdx>, n: int, found: int)
    requires
        order_valid(order, n),
        marks.len() == n,
        forall|v: int| 0 <= v < n ==> (#[trigger] marks[v] <==> order.contains(v as usize)),
        0 <= found < n,
        !marks[found],
    ensures
        order_valid(order.push(found as usize), n),
        order.len() < n,
        forall|v: int|
            0 <= v < n ==> (#[trigger] marks.update(found, true)[v] <==> order.push(
                found as usize,
            ).contains(v as usize)),
{
    let new_marks = marks.update(found, true);
    let new_order = order.push(found as usize);
    assert(!order.contains(found as usize));
    assert(new_order.no_duplicates());
    assert forall|i: int| 0 <= i < new_order.len() implies #[trigger] new_order[i] < n by {
        if i < order.len() {
            assert(new_order[i] == order[i]);
        }
    }
    lemma_distinct_below(new_order, n);
    assert forall|v: int| 0 <= v < n implies (#[trigger] new_marks[v] <==> new_order.contains(
        v as usize,
    )) by {
        if v == found {
            assert(new_order[order.len() as int] == found as usize);
        } else {
            assert(marks[v] == new_marks[v]);
            if order.contains(v as usize) {
                let i = choose|i: int| 0 <= i < order.len() && order[i] == v as usize;
                assert(new_order[i] == v as usize);
            }
            if new_order.contains(v as usize) {
                let i = choose|i: int| 0 <= i < new_order.len() && new_order[i] == v as usize;
                assert(i < order.len());
                assert(order[i] == v as usize);
            }
        }
    }
}

/// Marking one more site leaves closed what was closed.
proof fn lemma_closed_kept(
    ends: Seq<River>,
    holders: Seq<River>,
    punter: PunterId,
    n: int,
    marks: Seq<bool>,
    u: int,
    found: int,
)
    requires
        rivers_in_range(ends, n),
        marks.len() == n,
        0 <= found < n,
        closed_at(ends, holders, punter, marks, u),
    ensures
        closed_at(ends, holders, punter, marks.update(found, true), u),
{
    let new_marks = marks.update(found, true);
    assert forall|r: int|
        0 <= r < ends.len() && (#[trigger] ends[r]).touches(u) && holders[r].held_by(punter) implies new_marks[ends[r].across(
        u,
    )] by {
        assert(marks[ends[r].across(u)]);
    }
}

} // verus!
