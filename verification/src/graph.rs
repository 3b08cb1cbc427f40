//! The graph index: for every site the rivers that touch it, ordered by the
//! site at the other end, and the lookup of a river by its two ends.

use crate::river::{River, RiverIdx, SiteIdx};
use crate::setup::Input;
use vstd::prelude::*;

verus! {

broadcast use vstd::seq_lib::group_to_multiset_ensures;

/// For every site the list of the rivers that touch it.
pub type EdgeMatrix = Vec<Vec<RiverIdx>>;

/// Both ends of every river are positions below `n`.
pub open spec fn rivers_in_range(rivers: Seq<River>, n: int) -> bool {
    forall|r: int|
        0 <= r < rivers.len() ==> (#[trigger] rivers[r]).source_idx < n && rivers[r].target_idx < n
}

/// How many ends of `river` lie at `site`: two for a loop at that site.
pub open spec fn multiplicity(river: River, site: int) -> nat {
    let at_source: nat = if river.source_idx == site {
        1
    } else {
        0
    };
    let at_target: nat = if river.target_idx == site {
        1
    } else {
        0
    };
    at_source + at_target
}

/// The site that entry `k` of `list` leads to from `site`.
pub open spec fn far_end(rivers: Seq<River>, site: int, list: Seq<RiverIdx>, k: int) -> int {
    rivers[list[k] as int].across(site)
}

/// Every entry of `list` is a river that touches `site`.
pub open spec fn incidence_sound(rivers: Seq<River>, site: int, list: Seq<RiverIdx>) -> bool {
    forall|k: int|
        0 <= k < list.len() ==> (#[trigger] list[k]) < rivers.len() && rivers[list[k] as int].touches(
            site,
        )
}

/// Entries come in the order of their far ends; among equal far ends, in the
/// order of the rivers themselves.
pub open spec fn incidence_sorted(rivers: Seq<River>, site: int, list: Seq<RiverIdx>) -> bool {
    forall|i: int, j: int|
        0 <= i < j < list.len() ==> {
            ||| far_end(rivers, site, list, i) < far_end(rivers, site, list, j)
            ||| (far_end(rivers, site, list, i) == far_end(rivers, site, list, j) && (
            #[trigger] list[i]) <= (#[trigger] list[j]))
        }
}

/// `list` holds each of the first `upto` rivers once per end at `site`, and
/// no other entry.
pub open spec fn incidence_counts(
    rivers: Seq<River>,
    site: int,
    list: Seq<RiverIdx>,
    upto: int,
) -> bool {
    forall|x: RiverIdx| #[trigger]
        list.to_multiset().count(x) == if x < upto {
            multiplicity(rivers[x as int], site)
        } else {
            0
        }
}

/// `list` is the incidence list of `site`: exactly the rivers that touch it,
/// each once per end, in order.
pub open spec fn is_incidence_list(rivers: Seq<River>, site: int, list: Seq<RiverIdx>) -> bool {
    &&& incidence_sound(rivers, site, list)
    &&& incidence_sorted(rivers, site, list)
    &&& incidence_counts(rivers, site, list, rivers.len() as int)
}

/// `edges` holds the incidence list of each of the `n` sites.
pub open spec fn is_graph_index(rivers: Seq<River>, n: int, edges: Seq<Vec<RiverIdx>>) -> bool {
    &&& edges.len() == n
    &&& forall|s: int| 0 <= s < n ==> is_incidence_list(rivers, s, (#[trigger] edges[s])@)
}

/// `a` and `b` are the same rivers between the same positions, whoever holds
/// them.
pub open spec fn same_ends(a: Seq<River>, b: Seq<River>) -> bool {
    &&& a.len() == b.len()
    &&& forall|r: int|
        0 <= r < a.len() ==> (#[trigger] a[r]).source_idx == b[r].source_idx && a[r].target_idx
            == b[r].target_idx
}

/// A graph index depends on where the rivers run, not on who holds them.
pub proof fn lemma_graph_index_same_ends(
    a: Seq<River>,
    b: Seq<River>,
    n: int,
    edges: Seq<Vec<RiverIdx>>,
)
    requires
        same_ends(a, b),
        is_graph_index(a, n, edges),
    ensures
        is_graph_index(b, n, edges),
{
    assert forall|s: int| 0 <= s < n implies is_incidence_list(b, s, (#[trigger] edges[s])@) by {
        let list = edges[s]@;
        assert(is_incidence_list(a, s, list));
        assert forall|k: int| 0 <= k < list.len() implies (#[trigger] list[k]) < b.len()
            && b[list[k] as int].touches(s) by {
            assert(a[list[k] as int].touches(s));
        }
        assert forall|i: int, j: int| 0 <= i < j < list.len() implies {
            ||| far_end(b, s, list, i) < far_end(b, s, list, j)
            ||| (far_end(b, s, list, i) == far_end(b, s, list, j) && (#[trigger] list[i]) <= (
            #[trigger] list[j]))
        } by {
            assert(far_end(a, s, list, i) == far_end(b, s, list, i));
            assert(far_end(a, s, list, j) == far_end(b, s, list, j));
        }
        assert forall|x: RiverIdx| #[trigger]
            list.to_multiset().count(x) == if x < b.len() {
                multiplicity(b[x as int], s)
            } else {
                0
            } by {
            if x < a.len() {
                assert(multiplicity(a[x as int], s) == multiplicity(b[x as int], s));
            }
        }
    }
}

/// The first river at or after position `from` that joins `a` and `b`.
pub open spec fn first_joining_from(rivers: Seq<River>, a: int, b: int, from: int) -> Option<
    RiverIdx,
>
    decreases rivers.len() - from,
{
    if from < 0 || from >= rivers.len() {
        None
    } else if rivers[from].joins(a, b) {
        Some(from as RiverIdx)
    } else {
        first_joining_from(rivers, a, b, from + 1)
    }
}

/// The river of least position that joins `a` and `b`, if there is one.
pub open spec fn first_joining(rivers: Seq<River>, a: int, b: int) -> Option<RiverIdx> {
    first_joining_from(rivers, a, b, 0)
}

/// What `first_joining_from` finds is a river that joins the two sites and
/// has none before it that does; it finds nothing only where none does.
pub proof fn lemma_first_joining_from(rivers: Seq<River>, a: int, b: int, from: int)
    requires
        0 <= from,
        rivers.len() <= usize::MAX,
    ensures
        match first_joining_from(rivers, a, b, from) {
            Some(r) => from <= r < rivers.len() && rivers[r as int].joins(a, b) && forall|j: int|
                from <= j < r ==> !(#[trigger] rivers[j]).joins(a, b),
            None => forall|j: int| from <= j < rivers.len() ==> !(#[trigger] rivers[j]).joins(a, b),
        },
    decreases rivers.len() - from,
{
    if from < rivers.len() && !rivers[from].joins(a, b) {
        lemma_first_joining_from(rivers, a, b, from + 1);
    }
}

/// A river found by its two ends does not depend on the order in which the
/// ends are named.
pub proof fn lemma_first_joining_symmetric(rivers: Seq<River>, a: int, b: int)
    ensures
        first_joining(rivers, a, b) == first_joining(rivers, b, a),
{
    lemma_first_joining_from_symmetric(rivers, a, b, 0);
}

proof fn lemma_first_joining_from_symmetric(rivers: Seq<River>, a: int, b: int, from: int)
    ensures
        first_joining_from(rivers, a, b, from) == first_joining_from(rivers, b, a, from),
    decreases rivers.len() - from,
{
    if 0 <= from < rivers.len() && !rivers[from].joins(a, b) {
        lemma_first_joining_from_symmetric(rivers, a, b, from + 1);
    }
}

impl Input {
    /// The end of `river` opposite to `site`.
    pub fn river_other_index(&self, river: RiverIdx, site: SiteIdx) -> (other: SiteIdx)
        requires
            river < self.map.rivers@.len(),
            self.map.rivers@[river as int].touches(site as int),
        ensures
            other == self.map.rivers@[river as int].across(site as int),
    {
        self.map.rivers[river].other_index(site)
    }

    /// The first position in `list` whose river leads from `site` to a site
    /// not below `bound`.
    pub fn first_not_below(&self, list: &Vec<RiverIdx>, site: SiteIdx, bound: usize) -> (p: usize)
        requires
            incidence_sound(self.map.rivers@, site as int, list@),
            incidence_sorted(self.map.rivers@, site as int, list@),
        ensures
            p <= list@.len(),
            forall|i: int|
                0 <= i < p ==> #[trigger] far_end(self.map.rivers@, site as int, list@, i) < bound,
            forall|i: int|
                p <= i < list@.len() ==> #[trigger] far_end(self.map.rivers@, site as int, list@, i)
                    >= bound,
    {
        let mut lo: usize = 0;
        let mut hi: usize = list.len();
        while lo < hi
            invariant
                lo <= hi <= list@.len(),
                incidence_sound(self.map.rivers@, site as int, list@),
                incidence_sorted(self.map.rivers@, site as int, list@),
                forall|i: int|
                    0 <= i < lo ==> #[trigger] far_end(self.map.rivers@, site as int, list@, i)
                        < bound,
                forall|i: int|
                    hi <= i < list@.len() ==> #[trigger] far_end(
                        self.map.rivers@,
                        site as int,
                        list@,
                        i,
                    ) >= bound,
            decreases hi - lo,
        {
            let mid = lo + (hi - lo) / 2;
            let far = self.river_other_index(list[mid], site);
            assert(far == far_end(self.map.rivers@, site as int, list@, mid as int));
            if far < bound {
                assert forall|i: int| 0 <= i < mid + 1 implies #[trigger] far_end(
                    self.map.rivers@,
                    site as int,
                    list@,
                    i,
                ) < bound by {
                    if i < mid {
                        assert(far_end(self.map.rivers@, site as int, list@, i) <= far_end(
                            self.map.rivers@,
                            site as int,
                            list@,
                            mid as int,
                        ));
                    }
                }
                lo = mid + 1;
            } else {
                assert forall|i: int| mid <= i < list@.len() implies #[trigger] far_end(
                    self.map.rivers@,
                    site as int,
                    list@,
                    i,
                ) >= bound by {
                    if mid < i {
                        assert(far_end(self.map.rivers@, site as int, list@, mid as int)
                            <= far_end(self.map.rivers@, site as int, list@, i));
                    }
                }
                hi = mid;
            }
        }
        lo
    }

    /// The river of least position that joins the sites at positions `a`
    /// and `b`, found in the incidence list of `a`.
    pub fn river_between(&self, edges: &EdgeMatrix, a: SiteIdx, b: SiteIdx) -> (found: Option<
        RiverIdx,
    >)
        requires
            is_graph_index(self.map.rivers@, self.map.sites@.len() as int, edges@),
            a < self.map.sites@.len(),
        ensures
            found == first_joining(self.map.rivers@, a as int, b as int),
    {
        let ghost rivers = self.map.rivers@;
        let list = &edges[a];
        assert(is_incidence_list(rivers, a as int, list@));
        assert(rivers.len() == self.map.rivers.len());
        let p = self.first_not_below(list, a, b);
        proof {
            lemma_first_joining_from(rivers, a as int, b as int, 0);
        }
        if p < list.len() {
            let river = list[p];
            let far = self.river_other_index(river, a);
            assert(far == far_end(rivers, a as int, list@, p as int));
            if far == b {
                proof {
                    assert(rivers[river as int].joins(a as int, b as int));
                    assert forall|j: int| 0 <= j < river implies !(#[trigger] rivers[j]).joins(
                        a as int,
                        b as int,
                    ) by {
                        if rivers[j].joins(a as int, b as int) {
                            lemma_listed_not_before(rivers, a as int, b as int, list@, p as int, j);
                        }
                    }
                }
                return Some(river);
            }
        }
        proof {
            assert forall|j: int| 0 <= j < rivers.len() implies !(#[trigger] rivers[j]).joins(
                a as int,
                b as int,
            ) by {
                if rivers[j].joins(a as int, b as int) {
                    lemma_listed_not_before(rivers, a as int, b as int, list@, p as int, j);
                }
            }
        }
        None
    }

    /// Files `river` in the incidence list of `site`, behind every entry
    /// whose far end is not beyond its own.
    fn file_river(&self, edges: &mut EdgeMatrix, river: RiverIdx, site: SiteIdx)
        requires
            site < old(edges)@.len(),
            river < self.map.rivers@.len(),
            rivers_in_range(self.map.rivers@, usize::MAX as int),
            self.map.rivers@[river as int].touches(site as int),
            incidence_sound(self.map.rivers@, site as int, old(edges)@[site as int]@),
            incidence_sorted(self.map.rivers@, site as int, old(edges)@[site as int]@),
            forall|k: int|
                0 <= k < old(edges)@[site as int]@.len() ==> #[trigger] old(edges)@[site as int]@[k]
                    <= river,
        ensures
            final(edges)@.len() == old(edges)@.len(),
            forall|s: int|
                0 <= s < old(edges)@.len() && s != site
                    ==> #[trigger] final(edges)@[s] == old(edges)@[s],
            incidence_sound(self.map.rivers@, site as int, final(edges)@[site as int]@),
            incidence_sorted(self.map.rivers@, site as int, final(edges)@[site as int]@),
            final(edges)@[site as int]@.to_multiset() == old(edges)@[site as int]@.to_multiset().insert(
                river,
            ),
    {
        let far = self.river_other_index(river, site);
        let p = self.first_not_below(&edges[site], site, far + 1);
        let ghost before = edges@[site as int]@;
        let ghost rivers = self.map.rivers@;
        edges[site].insert(p, river);
        proof {
            let after = edges@[site as int]@;
            assert(after == before.insert(p as int, river));
            assert forall|i: int, j: int| 0 <= i < j < after.len() implies {
                ||| far_end(rivers, site as int, after, i) < far_end(rivers, site as int, after, j)
                ||| (far_end(rivers, site as int, after, i) == far_end(rivers, site as int, after, j)
                    && (#[trigger] after[i]) <= (#[trigger] after[j]))
            } by {
                let bi = if i < p {
                    i
                } else {
                    i - 1
                };
                let bj = if j < p {
                    j
                } else {
                    j - 1
                };
                if i != p && j != p {
                    assert(before[bi] == after[i] && before[bj] == after[j]);
                } else if i == p {
                    assert(before[bj] == after[j]);
                    assert(far_end(rivers, site as int, before, bj) >= far + 1);
                } else {
                    assert(before[bi] == after[i]);
                    assert(far_end(rivers, site as int, before, bi) < far + 1);
                }
            }
        }
    }

    /// Builds the incidence list of every site.
    pub fn compute_edges(&self) -> (edges: EdgeMatrix)
        requires
            rivers_in_range(self.map.rivers@, self.map.sites@.len() as int),
        ensures
            is_graph_index(self.map.rivers@, self.map.sites@.len() as int, edges@),
    {
        let n = self.map.sites.len();
        let ghost rivers = self.map.rivers@;
        let mut edges: EdgeMatrix = Vec::new();
        while edges.len() < n
            invariant
                edges@.len() <= n,
                forall|s: int| 0 <= s < edges@.len() ==> (#[trigger] edges@[s])@.len() == 0,
            decreases n - edges@.len(),
        {
            edges.push(Vec::new());
        }
        let mut k: usize = 0;
        while k < self.map.rivers.len()
            invariant
                k <= rivers.len(),
                rivers == self.map.rivers@,
                n == self.map.sites@.len(),
                edges@.len() == n,
                rivers_in_range(rivers, n as int),
                forall|s: int|
                    0 <= s < n ==> {
                        &&& incidence_sound(rivers, s, (#[trigger] edges@[s])@)
                        &&& incidence_sorted(rivers, s, edges@[s]@)
                        &&& incidence_counts(rivers, s, edges@[s]@, k as int)
                    },
            decreases rivers.len() - k,
        {
            let river = self.map.rivers[k];
            let ghost start = edges@;
            proof {
                lemma_entries_below(rivers, river.source_idx as int, start[river.source_idx as int]@, k as int);
            }
            self.file_river(&mut edges, k, river.source_idx);
            let ghost middle = edges@;
            proof {
                if river.target_idx != river.source_idx {
                    lemma_entries_below(
                        rivers,
                        river.target_idx as int,
                        start[river.target_idx as int]@,
                        k as int,
                    );
                } else {
                    lemma_entries_below(
                        rivers,
                        river.source_idx as int,
                        start[river.source_idx as int]@,
                        k as int,
                    );
                    assert forall|j: int|
                        0 <= j < middle[river.target_idx as int]@.len() implies #[trigger] middle[river.target_idx as int]@[j]
                        <= k by {
                        let x = middle[river.target_idx as int]@[j];
                        assert(middle[river.target_idx as int]@.contains(x));
                        assert(middle[river.target_idx as int]@.to_multiset().count(x) > 0);
                        if x != k {
                            assert(start[river.target_idx as int]@.to_multiset().count(x) > 0);
                        }
                    }
                }
            }
            self.file_river(&mut edges, k, river.target_idx);
            proof {
                assert forall|s: int| 0 <= s < n implies incidence_counts(
                    rivers,
                    s,
                    (#[trigger] edges@[s])@,
                    k + 1,
                ) by {
                    assert(incidence_counts(rivers, s, start[s]@, k as int));
                    assert forall|x: RiverIdx| #[trigger]
                        edges@[s]@.to_multiset().count(x) == if x < k + 1 {
                            multiplicity(rivers[x as int], s)
                        } else {
                            0
                        } by {
                        assert(start[s]@.to_multiset().count(x) == if x < k {
                            multiplicity(rivers[x as int], s)
                        } else {
                            0
                        });
                    }
                }
            }
            k += 1;
        }
        edges
    }
}

/// While only the first `upto` rivers have been filed, every entry of a
/// list is one of them.
proof fn lemma_entries_below(rivers: Seq<River>, site: int, list: Seq<RiverIdx>, upto: int)
    requires
        incidence_counts(rivers, site, list, upto),
    ensures
        forall|j: int| 0 <= j < list.len() ==> #[trigger] list[j] < upto,
{
    assert forall|j: int| 0 <= j < list.len() implies #[trigger] list[j] < upto by {
        assert(list.contains(list[j]));
        assert(list.to_multiset().count(list[j]) > 0);
    }
}

/// In the incidence list of `a`, a river that joins `a` and `b` stands at or
/// after the first entry that leads to `b` or beyond, leads to `b` itself,
/// and so is not before the river at that entry.
proof fn lemma_listed_not_before(
    rivers: Seq<River>,
    a: int,
    b: int,
    list: Seq<RiverIdx>,
    p: int,
    j: int,
)
    requires
        is_incidence_list(rivers, a, list),
        0 <= j < rivers.len(),
        rivers.len() <= usize::MAX,
        rivers[j].joins(a, b),
        0 <= p <= list.len(),
        forall|i: int| 0 <= i < p ==> #[trigger] far_end(rivers, a, list, i) < b,
        forall|i: int| p <= i < list.len() ==> #[trigger] far_end(rivers, a, list, i) >= b,
    ensures
        p < list.len(),
        far_end(rivers, a, list, p) == b,
        list[p] <= j,
{
    let x = j as RiverIdx;
    assert(multiplicity(rivers[j], a) > 0);
    assert(list.to_multiset().count(x) > 0);
    assert(list.contains(x));
    let at = choose|at: int| 0 <= at < list.len() && list[at] == x;
    assert(far_end(rivers, a, list, at) == b);
    assert(at >= p);
    if at > p {
        assert(far_end(rivers, a, list, p) <= far_end(rivers, a, list, at));
    }
}

} // verus!
