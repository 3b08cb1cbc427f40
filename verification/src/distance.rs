//! The distance oracle: hop counts from every mine to every site, by
//! breadth-first search over all rivers, whoever holds them.

use crate::graph::{
    is_graph_index, is_incidence_list, multiplicity, rivers_in_range, same_ends, EdgeMatrix,
};
use crate::river::{River, RiverIdx, SiteId, SiteIdx};
use crate::util::{filled, lemma_distinct_below};
use crate::setup::{is_site_index, mines_known, Input};
use std::collections::HashMap;
use std::collections::VecDeque;
use vstd::prelude::*;

verus! {

broadcast use {
    vstd::std_specs::hash::group_hash_axioms,
    vstd::seq_lib::group_to_multiset_ensures,
};

/// One row of hop counts per mine, in the order of the mine list.
pub type ShortestPathsMap = Vec<Vec<usize>>;

/// The hop count of a site that no path from the mine reaches.
pub const UNREACHED: usize = usize::MAX;

/// Some river joins `u` and `v`.
pub open spec fn adjacent(rivers: Seq<River>, u: int, v: int) -> bool {
    exists|r: int| 0 <= r < rivers.len() && (#[trigger] rivers[r]).joins(u, v)
}

/// If `u` is reached then so is `v`, at most one hop further.
pub open spec fn relaxed(row: Seq<usize>, u: int, v: int) -> bool {
    row[u] != UNREACHED ==> row[v] != UNREACHED && row[v] <= row[u] + 1
}

/// Every river at `u` is relaxed in the direction away from `u`.
pub open spec fn settled(rivers: Seq<River>, row: Seq<usize>, u: int) -> bool {
    forall|r: int|
        0 <= r < rivers.len() && (#[trigger] rivers[r]).touches(u) ==> relaxed(
            row,
            u,
            rivers[r].across(u),
        )
}

/// Some river leads from `v` to a site exactly one hop nearer.
pub open spec fn has_parent(rivers: Seq<River>, row: Seq<usize>, v: int) -> bool {
    exists|r: int|
        0 <= r < rivers.len() && (#[trigger] rivers[r]).touches(v) && row[rivers[r].across(v)] + 1
            == row[v]
}

/// `row` holds the hop counts from `root` over `rivers` among `n` sites.
///
/// The root is at distance zero; a river never spans more than one hop;
/// every other reached site has a neighbour one hop nearer; a reached site
/// is fewer than `n` hops away. These fix `row` completely: see
/// `lemma_distance_is_shortest` and `lemma_unreached_has_no_walk`.
pub open spec fn is_distance_row(rivers: Seq<River>, n: int, root: int, row: Seq<usize>) -> bool {
    &&& row.len() == n
    &&& 0 <= root < n
    &&& row[root] == 0
    &&& forall|v: int| 0 <= v < n ==> #[trigger] row[v] == UNREACHED || row[v] < n
    &&& forall|u: int| 0 <= u < n ==> #[trigger] settled(rivers, row, u)
    &&& forall|v: int|
        0 <= v < n && v != root && #[trigger] row[v] != UNREACHED ==> has_parent(rivers, row, v)
}

/// `table` holds one distance row per mine.
pub open spec fn is_distance_table(
    rivers: Seq<River>,
    n: int,
    mine_sites: Seq<int>,
    table: Seq<Vec<usize>>,
) -> bool {
    &&& table.len() == mine_sites.len()
    &&& forall|m: int|
        0 <= m < table.len() ==> is_distance_row(rivers, n, mine_sites[m], (#[trigger] table[m])@)
}

/// The positions of the mines, looked up in `index`.
pub open spec fn mine_positions(index: Map<SiteId, SiteIdx>, mines: Seq<SiteId>) -> Seq<int> {
    Seq::new(mines.len(), |m: int| index[mines[m]] as int)
}

/// `walk` is a sequence of sites in which each is joined to the next by a
/// river.
pub open spec fn is_walk(rivers: Seq<River>, n: int, walk: Seq<int>) -> bool {
    &&& walk.len() >= 1
    &&& forall|i: int| 0 <= i < walk.len() ==> 0 <= #[trigger] walk[i] < n
    &&& forall|i: int| 0 <= i < walk.len() - 1 ==> adjacent(rivers, #[trigger] walk[i], walk[i + 1])
}

/// Across any river the hop count grows by at most one: for rows of hop
/// counts, `row[root] == 0` and `row[v] <= row[u] + 1` wherever a river joins
/// `u` and `v`.
pub proof fn lemma_distance_step(rivers: Seq<River>, n: int, root: int, row: Seq<usize>, u: int, v: int)
    requires
        is_distance_row(rivers, n, root, row),
        rivers_in_range(rivers, n),
        adjacent(rivers, u, v),
    ensures
        row[root] == 0,
        row[v] <= row[u] + 1,
        row[u] != UNREACHED ==> row[v] != UNREACHED,
{
    let r = choose|r: int| 0 <= r < rivers.len() && (#[trigger] rivers[r]).joins(u, v);
    assert(rivers[r].touches(u));
    assert(settled(rivers, row, u));
    assert(rivers[r].across(u) == v);
}

/// A walk from the root reaches its end in at least as many hops as the row
/// records for that end.
pub proof fn lemma_walk_bounds_distance(
    rivers: Seq<River>,
    n: int,
    root: int,
    row: Seq<usize>,
    walk: Seq<int>,
)
    requires
        is_distance_row(rivers, n, root, row),
        rivers_in_range(rivers, n),
        is_walk(rivers, n, walk),
        walk.first() == root,
    ensures
        row[walk.last()] != UNREACHED,
        row[walk.last()] <= walk.len() - 1,
    decreases walk.len(),
{
    if walk.len() > 1 {
        let shorter = walk.drop_last();
        assert forall|i: int| 0 <= i < shorter.len() - 1 implies adjacent(
            rivers,
            #[trigger] shorter[i],
            shorter[i + 1],
        ) by {
            assert(shorter[i] == walk[i] && shorter[i + 1] == walk[i + 1]);
        }
        assert forall|i: int| 0 <= i < shorter.len() implies 0 <= #[trigger] shorter[i] < n by {
            assert(shorter[i] == walk[i]);
        }
        lemma_walk_bounds_distance(rivers, n, root, row, shorter);
        let u = walk[walk.len() - 2];
        assert(shorter.last() == u);
        assert(adjacent(rivers, walk[walk.len() - 2], walk[walk.len() - 2 + 1]));
        lemma_distance_step(rivers, n, root, row, u, walk.last());
    }
}

/// To every reached site a walk leads from the root in exactly as many hops
/// as the row records.
pub proof fn lemma_distance_has_walk(
    rivers: Seq<River>,
    n: int,
    root: int,
    row: Seq<usize>,
    v: int,
) -> (walk: Seq<int>)
    requires
        is_distance_row(rivers, n, root, row),
        rivers_in_range(rivers, n),
        0 <= v < n,
        row[v] != UNREACHED,
    ensures
        is_walk(rivers, n, walk),
        walk.first() == root,
        walk.last() == v,
        walk.len() - 1 == row[v],
    decreases row[v],
{
    if v == root {
        seq![root]
    } else {
        let r = choose|r: int|
            0 <= r < rivers.len() && (#[trigger] rivers[r]).touches(v) && row[rivers[r].across(v)]
                + 1 == row[v];
        let u = rivers[r].across(v);
        let shorter = lemma_distance_has_walk(rivers, n, root, row, u);
        let walk = shorter.push(v);
        assert(rivers[r].joins(u, v));
        assert forall|i: int| 0 <= i < walk.len() - 1 implies adjacent(
            rivers,
            #[trigger] walk[i],
            walk[i + 1],
        ) by {
            if i < shorter.len() - 1 {
                assert(adjacent(rivers, shorter[i], shorter[i + 1]));
            }
        }
        walk
    }
}

/// The hop count recorded for a reached site is the length of a shortest
/// walk from the root: some walk has that many hops and none has fewer.
pub proof fn lemma_distance_is_shortest(
    rivers: Seq<River>,
    n: int,
    root: int,
    row: Seq<usize>,
    v: int,
)
    requires
        is_distance_row(rivers, n, root, row),
        rivers_in_range(rivers, n),
        0 <= v < n,
        row[v] != UNREACHED,
    ensures
        exists|walk: Seq<int>|
            is_walk(rivers, n, walk) && walk.first() == root && walk.last() == v
                && #[trigger] walk.len() - 1 == row[v],
        forall|walk: Seq<int>|
            is_walk(rivers, n, walk) && walk.first() == root && walk.last() == v
                ==> #[trigger] walk.len() - 1 >= row[v],
{
    let witness = lemma_distance_has_walk(rivers, n, root, row, v);
    assert(witness.len() - 1 == row[v]);
    assert forall|walk: Seq<int>|
        is_walk(rivers, n, walk) && walk.first() == root && walk.last() == v implies #[trigger] walk.len()
        - 1 >= row[v] by {
        lemma_walk_bounds_distance(rivers, n, root, row, walk);
    }
}

/// A site marked as unreached is the end of no walk from the root.
pub proof fn lemma_unreached_has_no_walk(
    rivers: Seq<River>,
    n: int,
    root: int,
    row: Seq<usize>,
    walk: Seq<int>,
)
    requires
        is_distance_row(rivers, n, root, row),
        rivers_in_range(rivers, n),
        is_walk(rivers, n, walk),
        walk.first() == root,
    ensures
        row[walk.last()] != UNREACHED,
{
    lemma_walk_bounds_distance(rivers, n, root, row, walk);
}

/// Hop counts depend on where the rivers run, not on who holds them.
pub proof fn lemma_distance_table_same_ends(
    a: Seq<River>,
    b: Seq<River>,
    n: int,
    mine_sites: Seq<int>,
    table: Seq<Vec<usize>>,
)
    requires
        same_ends(a, b),
        is_distance_table(a, n, mine_sites, table),
    ensures
        is_distance_table(b, n, mine_sites, table),
{
    assert forall|m: int| 0 <= m < table.len() implies is_distance_row(
        b,
        n,
        mine_sites[m],
        (#[trigger] table[m])@,
    ) by {
        let row = table[m]@;
        let root = mine_sites[m];
        assert(is_distance_row(a, n, root, row));
        assert forall|u: int| 0 <= u < n implies #[trigger] settled(b, row, u) by {
            assert(settled(a, row, u));
            assert forall|r: int| 0 <= r < b.len() && (#[trigger] b[r]).touches(u) implies relaxed(
                row,
                u,
                b[r].across(u),
            ) by {
                assert(a[r].touches(u) && a[r].across(u) == b[r].across(u));
            }
        }
        assert forall|v: int| 0 <= v < n && v != root && #[trigger] row[v] != UNREACHED implies has_parent(
            b,
            row,
            v,
        ) by {
            assert(has_parent(a, row, v));
            let r = choose|r: int|
                0 <= r < a.len() && (#[trigger] a[r]).touches(v) && row[a[r].across(v)] + 1
                    == row[v];
            assert(b[r].touches(v) && row[b[r].across(v)] + 1 == row[v]);
        }
    }
}

/// The hop count recorded for entry `i` of `order`.
pub open spec fn hops_at(row: Seq<usize>, order: Seq<SiteIdx>, i: int) -> int {
    row[order[i] as int] as int
}

/// `order` lists sites below `n`, none of them twice.
pub open spec fn order_valid(order: Seq<SiteIdx>, n: int) -> bool {
    &&& n <= usize::MAX
    &&& order.no_duplicates()
    &&& forall|i: int| 0 <= i < order.len() ==> #[trigger] order[i] < n
}

/// The reached sites are exactly those that `order` lists.
pub open spec fn marks_match(row: Seq<usize>, order: Seq<SiteIdx>, n: int) -> bool {
    &&& row.len() == n
    &&& forall|v: int| 0 <= v < n ==> (#[trigger] row[v] != UNREACHED <==> order.contains(v as usize))
}

/// Hop counts do not fall along `order`, entry `i` has at most `i` hops, and
/// the last entry is at most one hop beyond the entry at `head`.
pub open spec fn hops_ordered(row: Seq<usize>, order: Seq<SiteIdx>, head: int) -> bool {
    &&& 0 <= head <= order.len()
    &&& forall|i: int| 0 <= i < order.len() ==> #[trigger] hops_at(row, order, i) <= i
    &&& forall|i: int, j: int|
        0 <= i <= j < order.len() ==> #[trigger] hops_at(row, order, i) <= #[trigger] hops_at(
            row,
            order,
            j,
        )
    &&& head < order.len() ==> hops_at(row, order, order.len() - 1) <= hops_at(row, order, head) + 1
}

/// Every site that `order` lists before `head` is settled.
pub open spec fn all_settled(
    rivers: Seq<River>,
    row: Seq<usize>,
    order: Seq<SiteIdx>,
    head: int,
) -> bool {
    forall|i: int| 0 <= i < head && i < order.len() ==> #[trigger] settled(rivers, row, order[i] as int)
}

/// Every reached site but the root has a neighbour one hop nearer.
pub open spec fn all_parented(rivers: Seq<River>, n: int, root: int, row: Seq<usize>) -> bool {
    forall|v: int|
        0 <= v < n && v != root && #[trigger] row[v] != UNREACHED ==> has_parent(rivers, row, v)
}

/// What holds of a breadth-first search in progress: `order` lists the
/// reached sites in the order of their discovery, and those before `head`
/// have had all their rivers followed.
pub open spec fn search_inv(
    rivers: Seq<River>,
    n: int,
    root: int,
    row: Seq<usize>,
    order: Seq<SiteIdx>,
    head: int,
) -> bool {
    &&& 0 <= root < n
    &&& row.len() == n
    &&& row[root] == 0
    &&& order_valid(order, n)
    &&& marks_match(row, order, n)
    &&& hops_ordered(row, order, head)
    &&& all_settled(rivers, row, order, head)
    &&& all_parented(rivers, n, root, row)
}

/// A newly reached site can join `order`, which then still has room in `n`.
proof fn lemma_order_grows(row: Seq<usize>, order: Seq<SiteIdx>, n: int, found: int, hops: usize)
    requires
        order_valid(order, n),
        marks_match(row, order, n),
        0 <= found < n,
        row[found] == UNREACHED,
        hops != UNREACHED,
    ensures
        order_valid(order.push(found as usize), n),
        marks_match(row.update(found, hops), order.push(found as usize), n),
        order.len() < n,
{
    let new_row = row.update(found, hops);
    let new_order = order.push(found as usize);
    assert(!order.contains(found as usize));
    assert(new_order.no_duplicates());
    assert forall|i: int| 0 <= i < new_order.len() implies #[trigger] new_order[i] < n by {
        if i < order.len() {
            assert(new_order[i] == order[i]);
        }
    }
    lemma_distinct_below(new_order, n);
    assert forall|v: int| 0 <= v < n implies (#[trigger] new_row[v] != UNREACHED
        <==> new_order.contains(v as usize)) by {
        if v == found {
            assert(new_order[order.len() as int] == found as usize);
        } else {
            assert(row[v] == new_row[v]);
            if order.contains(v as usize) {
                let i = choose|i: int| 0 <= i < order.len() && order[i] == v as usize;
                assert(new_order[i] == v as usize);
            }
            if new_order.contains(v as usize) {
                let i = choose|i: int| 0 <= i < new_order.len() && new_order[i] == v as usize;
                assert(i < order.len());
                assert(order[i] == v as usize);
            }
        }
    }
}

/// A site found one hop beyond the entry at `head` keeps the hop counts in
/// order.
proof fn lemma_hops_grow(row: Seq<usize>, order: Seq<SiteIdx>, n: int, head: int, found: int)
    requires
        order_valid(order, n),
        marks_match(row, order, n),
        hops_ordered(row, order, head),
        head < order.len(),
        0 <= found < n,
        row[found] == UNREACHED,
    ensures
        hops_at(row, order, head) + 1 < usize::MAX,
        hops_ordered(
            row.update(found, (hops_at(row, order, head) + 1) as usize),
            order.push(found as usize),
            head,
        ),
{
    let hops = hops_at(row, order, head);
    assert(hops <= head);
    lemma_order_grows(row, order, n, found, 0);
    let new_row = row.update(found, (hops + 1) as usize);
    let new_order = order.push(found as usize);
    let last = order.len() - 1;
    assert forall|i: int| 0 <= i < order.len() implies hops_at(new_row, new_order, i) == hops_at(
        row,
        order,
        i,
    ) by {
        assert(order.contains(order[i]));
        assert(new_order[i] == order[i]);
    }
    assert(hops_at(new_row, new_order, order.len() as int) == hops + 1);
    assert forall|i: int| 0 <= i < new_order.len() implies #[trigger] hops_at(new_row, new_order, i)
        <= i by {
        if i < order.len() {
            assert(hops_at(row, order, i) <= i);
        }
    }
    assert forall|i: int, j: int| 0 <= i <= j < new_order.len() implies #[trigger] hops_at(
        new_row,
        new_order,
        i,
    ) <= #[trigger] hops_at(new_row, new_order, j) by {
        if j < order.len() {
            assert(hops_at(row, order, i) <= hops_at(row, order, j));
        } else if i < order.len() {
            assert(hops_at(row, order, i) <= hops_at(row, order, last));
        }
    }
}

/// Marking a site that was unreached leaves settled what was settled.
proof fn lemma_settled_kept(
    rivers: Seq<River>,
    row: Seq<usize>,
    order: Seq<SiteIdx>,
    n: int,
    head: int,
    found: int,
    hops: usize,
)
    requires
        rivers_in_range(rivers, n),
        order_valid(order, n),
        marks_match(row, order, n),
        all_settled(rivers, row, order, head),
        head <= order.len(),
        0 <= found < n,
        row[found] == UNREACHED,
    ensures
        all_settled(rivers, row.update(found, hops), order.push(found as usize), head),
{
    let new_row = row.update(found, hops);
    let new_order = order.push(found as usize);
    assert forall|i: int| 0 <= i < head && i < new_order.len() implies #[trigger] settled(
        rivers,
        new_row,
        new_order[i] as int,
    ) by {
        if i < order.len() {
            let u = order[i] as int;
            assert(new_order[i] == order[i]);
            assert(settled(rivers, row, u));
            assert(order.contains(order[i]));
            assert(row[u] != UNREACHED);
            assert forall|r: int|
                0 <= r < rivers.len() && (#[trigger] rivers[r]).touches(u) implies relaxed(
                new_row,
                u,
                rivers[r].across(u),
            ) by {
                assert(relaxed(row, u, rivers[r].across(u)));
            }
        }
    }
}

/// A site found across `river` from a reached site has that site as its
/// parent, and every other site keeps the parent it had.
proof fn lemma_parents_kept(
    rivers: Seq<River>,
    n: int,
    root: int,
    row: Seq<usize>,
    river: int,
    site: int,
    found: int,
)
    requires
        rivers_in_range(rivers, n),
        row.len() == n,
        all_parented(rivers, n, root, row),
        0 <= river < rivers.len(),
        0 <= site < n,
        rivers[river].touches(site),
        found == rivers[river].across(site),
        0 <= found < n,
        row[found] == UNREACHED,
        row[site] + 1 < usize::MAX,
    ensures
        all_parented(rivers, n, root, row.update(found, (row[site] + 1) as usize)),
{
    let new_row = row.update(found, (row[site] + 1) as usize);
    assert forall|v: int| 0 <= v < n && v != root && #[trigger] new_row[v] != UNREACHED implies has_parent(
        rivers,
        new_row,
        v,
    ) by {
        if v == found {
            assert(rivers[river].touches(found));
            assert(rivers[river].across(found) == site);
        } else {
            assert(row[v] != UNREACHED);
            let r = choose|r: int|
                0 <= r < rivers.len() && (#[trigger] rivers[r]).touches(v) && row[rivers[r].across(
                    v,
                )] + 1 == row[v];
            assert(rivers[r].touches(v) && new_row[rivers[r].across(v)] + 1 == new_row[v]);
        }
    }
}

impl Input {
    /// Hop counts from the site at position `root` to every site.
    pub fn distances_from(&self, edges: &EdgeMatrix, root: SiteIdx, que: &mut VecDeque<SiteIdx>) -> (row:
        Vec<usize>)
        requires
            rivers_in_range(self.map.rivers@, self.map.sites@.len() as int),
            is_graph_index(self.map.rivers@, self.map.sites@.len() as int, edges@),
            root < self.map.sites@.len(),
        ensures
            is_distance_row(self.map.rivers@, self.map.sites@.len() as int, root as int, row@),
    {
        let n = self.map.sites.len();
        let ghost rivers = self.map.rivers@;
        assert(rivers.len() == self.map.rivers.len());
        let mut row = filled(n, UNREACHED);
        row[root] = 0;
        que.clear();
        que.push_back(root);
        let ghost mut order: Seq<SiteIdx> = seq![root];
        let ghost mut head: int = 0;
        proof {
            assert(order[0] == root);
            assert(que@ == order.skip(0));
            assert forall|v: int| 0 <= v < n implies (#[trigger] row@[v] != UNREACHED
                <==> order.contains(v as usize)) by {
                if order.contains(v as usize) {
                    let i = choose|i: int| 0 <= i < order.len() && order[i] == v as usize;
                    assert(i == 0);
                }
            }
            assert(hops_at(row@, order, 0) == 0);
        }
        while que.len() > 0
            invariant
                n == self.map.sites@.len(),
                rivers == self.map.rivers@,
                rivers.len() <= usize::MAX,
                rivers_in_range(rivers, n as int),
                is_graph_index(rivers, n as int, edges@),
                search_inv(rivers, n as int, root as int, row@, order, head),
                que@ == order.skip(head),
                order.len() <= n,
            decreases n - head,
        {
            let site = que.pop_front().unwrap();
            assert(site == order[head]);
            assert(que@ == order.skip(head + 1));
            let hops = row[site];
            assert(hops == hops_at(row@, order, head));
            let list = &edges[site];
            assert(is_incidence_list(rivers, site as int, list@));
            let mut k: usize = 0;
            while k < list.len()
                invariant
                    k <= list@.len(),
                    n == self.map.sites@.len(),
                    rivers == self.map.rivers@,
                    rivers_in_range(rivers, n as int),
                    is_incidence_list(rivers, site as int, list@),
                    search_inv(rivers, n as int, root as int, row@, order, head),
                    que@ == order.skip(head + 1),
                    order.len() <= n,
                    head < order.len(),
                    site == order[head],
                    hops == row@[site as int],
                    forall|j: int|
                        0 <= j < k ==> relaxed(
                            row@,
                            site as int,
                            rivers[#[trigger] list@[j] as int].across(site as int),
                        ),
                decreases list@.len() - k,
            {
                let river: RiverIdx = list[k];
                let neighbor = self.river_other_index(river, site);
                assert(hops == hops_at(row@, order, head));
                if row[neighbor] == UNREACHED {
                    let ghost old_row = row@;
                    proof {
                        lemma_hops_grow(old_row, order, n as int, head, neighbor as int);
                        lemma_order_grows(
                            old_row,
                            order,
                            n as int,
                            neighbor as int,
                            (hops + 1) as usize,
                        );
                        lemma_settled_kept(
                            rivers,
                            old_row,
                            order,
                            n as int,
                            head,
                            neighbor as int,
                            (hops + 1) as usize,
                        );
                        lemma_parents_kept(
                            rivers,
                            n as int,
                            root as int,
                            old_row,
                            river as int,
                            site as int,
                            neighbor as int,
                        );
                    }
                    row[neighbor] = hops + 1;
                    que.push_back(neighbor);
                    proof {
                        order = order.push(neighbor);
                        assert(que@ == order.skip(head + 1));
                        assert(neighbor != site);
                        assert forall|j: int| 0 <= j < k + 1 implies relaxed(
                            row@,
                            site as int,
                            rivers[#[trigger] list@[j] as int].across(site as int),
                        ) by {
                            if j < k {
                                assert(relaxed(
                                    old_row,
                                    site as int,
                                    rivers[list@[j] as int].across(site as int),
                                ));
                            }
                        }
                    }
                } else {
                    proof {
                        assert(order.contains(neighbor));
                        let at = choose|at: int| 0 <= at < order.len() && order[at] == neighbor;
                        assert(hops_at(row@, order, at) <= hops_at(row@, order, order.len() - 1));
                    }
                }
                k += 1;
            }
            proof {
                assert(settled(rivers, row@, site as int)) by {
                    assert forall|r: int|
                        0 <= r < rivers.len() && (#[trigger] rivers[r]).touches(site as int) implies relaxed(
                        row@,
                        site as int,
                        rivers[r].across(site as int),
                    ) by {
                        assert(multiplicity(rivers[r], site as int) > 0);
                        assert(list@.to_multiset().count(r as usize) > 0);
                        assert(list@.contains(r as usize));
                        let j = choose|j: int| 0 <= j < list@.len() && list@[j] == r as usize;
                        assert(relaxed(
                            row@,
                            site as int,
                            rivers[list@[j] as int].across(site as int),
                        ));
                    }
                }
                if head + 1 < order.len() {
                    assert(hops_at(row@, order, head) <= hops_at(row@, order, head + 1));
                }
                head = head + 1;
            }
        }
        proof {
            assert(head == order.len()) by {
                assert(order.skip(head).len() == 0);
            }
            assert forall|u: int| 0 <= u < n implies #[trigger] settled(rivers, row@, u) by {
                if row@[u] != UNREACHED {
                    assert(order.contains(u as usize));
                    let i = choose|i: int| 0 <= i < order.len() && order[i] == u as usize;
                    assert(settled(rivers, row@, order[i] as int));
                }
            }
            assert forall|v: int| 0 <= v < n implies #[trigger] row@[v] == UNREACHED || row@[v]
                < n by {
                if row@[v] != UNREACHED {
                    assert(order.contains(v as usize));
                    let i = choose|i: int| 0 <= i < order.len() && order[i] == v as usize;
                    assert(hops_at(row@, order, i) <= i);
                }
            }
        }
        row
    }

    /// Hop counts from every mine to every site.
    pub fn compute_shortest_paths(
        &self,
        edges: &EdgeMatrix,
        site_index: &HashMap<SiteId, SiteIdx>,
    ) -> (table: ShortestPathsMap)
        requires
            is_site_index(self.map.sites@, site_index@),
            mines_known(self.map.sites@, self.map.mines@),
            rivers_in_range(self.map.rivers@, self.map.sites@.len() as int),
            is_graph_index(self.map.rivers@, self.map.sites@.len() as int, edges@),
        ensures
            is_distance_table(
                self.map.rivers@,
                self.map.sites@.len() as int,
                mine_positions(site_index@, self.map.mines@),
                table@,
            ),
    {
        let mut table: ShortestPathsMap = Vec::with_capacity(self.map.mines.len());
        let mut que: VecDeque<SiteIdx> = VecDeque::with_capacity(self.map.sites.len());
        let ghost positions = mine_positions(site_index@, self.map.mines@);
        let mut m: usize = 0;
        while m < self.map.mines.len()
            invariant
                m <= self.map.mines@.len(),
                table@.len() == m,
                positions == mine_positions(site_index@, self.map.mines@),
                is_site_index(self.map.sites@, site_index@),
                mines_known(self.map.sites@, self.map.mines@),
                rivers_in_range(self.map.rivers@, self.map.sites@.len() as int),
                is_graph_index(self.map.rivers@, self.map.sites@.len() as int, edges@),
                forall|j: int|
                    0 <= j < m ==> is_distance_row(
                        self.map.rivers@,
                        self.map.sites@.len() as int,
                        positions[j],
                        (#[trigger] table@[j])@,
                    ),
            decreases self.map.mines@.len() - m,
        {
            let mine = self.map.mines[m];
            proof {
                assert(crate::setup::has_site(self.map.sites@, self.map.mines@[m as int]));
            }
            let root = match site_index.get(&mine) {
                Some(root) => *root,
                None => {
                    assert(false);
                    0
                },
            };
            let row = self.distances_from(edges, root, &mut que);
            table.push(row);
            m += 1;
        }
        table
    }
}

} // verus!
