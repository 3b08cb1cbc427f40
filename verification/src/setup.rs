//! The setup a referee sends at the start of a match, and its validation.

use crate::river::{PunterId, River, SiteId, SiteIdx};
use std::collections::HashMap;
use vstd::prelude::*;

verus! {

broadcast use vstd::std_specs::hash::group_hash_axioms;

/// A vertex of the map.
#[derive(Debug, Clone, Copy)]
pub struct Site {
    pub id: SiteId,
}

/// Optional rules that the referee may switch on.
#[derive(Debug, Clone, Copy)]
pub struct Settings {
    pub futures: bool,
    pub splurges: bool,
    pub options: bool,
}

impl Default for Settings {
    fn default() -> (settings: Settings)
        ensures
            settings == (Settings { futures: false, splurges: false, options: false }),
    {
        Settings { futures: false, splurges: false, options: false }
    }
}

/// Sites, rivers and mines of a match.
#[derive(Debug)]
pub struct InputMap {
    pub sites: Vec<Site>,
    pub rivers: Vec<River>,
    pub mines: Vec<SiteId>,
}

/// Everything the referee tells a punter before the first turn.
#[derive(Debug)]
pub struct Input {
    pub punter: PunterId,
    pub punters: PunterId,
    pub map: InputMap,
    pub settings: Settings,
}

/// Why a setup cannot be played.
#[derive(Debug, Clone, Copy, PartialEq, Eq)]
pub enum SetupError {
    /// Two sites share an identifier.
    DuplicateSite,
    /// A river ends at a site that the map does not list.
    UnknownEndpoint,
    /// A mine is not among the sites.
    UnknownMine,
    /// The punter's own identifier is not below the number of punters.
    NoSuchPunter,
    /// A river is rented without being owned, or rented by its owner.
    OwnershipConflict,
    /// The largest score the map allows does not fit the score type.
    TooLarge,
}

/// Whether some site carries the identifier `id`.
pub open spec fn has_site(sites: Seq<Site>, id: SiteId) -> bool {
    exists|i: int| 0 <= i < sites.len() && #[trigger] sites[i].id == id
}

/// No identifier is used by two sites.
pub open spec fn distinct_sites(sites: Seq<Site>) -> bool {
    forall|i: int, j: int|
        0 <= i < j < sites.len() ==> (#[trigger] sites[i]).id != (#[trigger] sites[j]).id
}

/// `index` sends each site's identifier to its position, and nothing else
/// anywhere.
pub open spec fn is_site_index(sites: Seq<Site>, index: Map<SiteId, SiteIdx>) -> bool {
    &&& forall|i: int|
        0 <= i < sites.len() ==> index.contains_key(#[trigger] sites[i].id) && index[sites[i].id]
            == i
    &&& forall|id: SiteId| #[trigger]
        index.contains_key(id) ==> index[id] < sites.len() && sites[index[id] as int].id == id
}

/// Every river ends at listed sites.
pub open spec fn endpoints_known(sites: Seq<Site>, rivers: Seq<River>) -> bool {
    forall|k: int|
        0 <= k < rivers.len() ==> has_site(sites, (#[trigger] rivers[k]).source) && has_site(
            sites,
            rivers[k].target,
        )
}

/// Every mine is a listed site.
pub open spec fn mines_known(sites: Seq<Site>, mines: Seq<SiteId>) -> bool {
    forall|k: int| 0 <= k < mines.len() ==> has_site(sites, #[trigger] mines[k])
}

/// The positions stored in `river` are those of its two named sites.
pub open spec fn river_indexed(sites: Seq<Site>, river: River) -> bool {
    &&& river.source_idx < sites.len()
    &&& river.target_idx < sites.len()
    &&& sites[river.source_idx as int].id == river.source
    &&& sites[river.target_idx as int].id == river.target
}

/// Every river stores the positions of its two named sites.
pub open spec fn rivers_indexed(sites: Seq<Site>, rivers: Seq<River>) -> bool {
    forall|k: int| 0 <= k < rivers.len() ==> river_indexed(sites, #[trigger] rivers[k])
}

/// Every river respects the rule on owners and renters.
pub open spec fn rivers_wf(rivers: Seq<River>) -> bool {
    forall|k: int| 0 <= k < rivers.len() ==> (#[trigger] rivers[k]).wf()
}

/// `after` is `before` with nothing touched but the stored positions.
pub open spec fn same_rivers_but_positions(before: Seq<River>, after: Seq<River>) -> bool {
    &&& after.len() == before.len()
    &&& forall|k: int|
        0 <= k < before.len() ==> {
            &&& (#[trigger] after[k]).source == before[k].source
            &&& after[k].target == before[k].target
            &&& after[k].owner == before[k].owner
            &&& after[k].renter == before[k].renter
        }
}

/// The largest score that a map of this size allows fits the score type,
/// even when summed over all punters.
pub open spec fn fits_scores(punters: int, mines: int, sites: int) -> bool {
    sites * sites * sites * mines * punters <= u64::MAX
}

/// Builds the map from site identifier to position, or reports a repeated
/// identifier.
pub fn index_sites(sites: &Vec<Site>) -> (r: Result<HashMap<SiteId, SiteIdx>, SetupError>)
    ensures
        match r {
            Ok(index) => distinct_sites(sites@) && is_site_index(sites@, index@),
            Err(e) => e == SetupError::DuplicateSite && !distinct_sites(sites@),
        },
{
    let mut index: HashMap<SiteId, SiteIdx> = HashMap::new();
    let mut k: usize = 0;
    while k < sites.len()
        invariant
            k <= sites.len(),
            distinct_sites(sites@.take(k as int)),
            is_site_index(sites@.take(k as int), index@),
        decreases sites.len() - k,
    {
        let id = sites[k].id;
        if index.contains_key(&id) {
            proof {
                let i = index@[id] as int;
                assert(sites@.take(k as int)[i].id == id);
                assert(sites@[i].id == sites@[k as int].id);
            }
            return Err(SetupError::DuplicateSite);
        }
        index.insert(id, k);
        proof {
            let before = sites@.take(k as int);
            let after = sites@.take(k + 1);
            assert forall|i: int, j: int| 0 <= i < j < after.len() implies (#[trigger] after[i]).id
                != (#[trigger] after[j]).id by {
                if j < k {
                    assert(before[i].id != before[j].id);
                } else {
                    assert(before[i].id == after[i].id);
                }
            }
            assert forall|i: int| 0 <= i < after.len() implies index@.contains_key(
                #[trigger] after[i].id,
            ) && index@[after[i].id] == i by {
                if i < k {
                    assert(before[i].id == after[i].id);
                }
            }
        }
        k += 1;
    }
    assert(sites@.take(k as int) == sites@);
    Ok(index)
}

impl Input {
    /// What is wrong with this setup, if anything; of several faults the one
    /// named first in `SetupError`.
    pub open spec fn setup_error(&self) -> Option<SetupError> {
        if !distinct_sites(self.map.sites@) {
            Some(SetupError::DuplicateSite)
        } else if !endpoints_known(self.map.sites@, self.map.rivers@) {
            Some(SetupError::UnknownEndpoint)
        } else if !mines_known(self.map.sites@, self.map.mines@) {
            Some(SetupError::UnknownMine)
        } else if self.punter >= self.punters {
            Some(SetupError::NoSuchPunter)
        } else if !rivers_wf(self.map.rivers@) {
            Some(SetupError::OwnershipConflict)
        } else if !fits_scores(
            self.punters as int,
            self.map.mines@.len() as int,
            self.map.sites@.len() as int,
        ) {
            Some(SetupError::TooLarge)
        } else {
            None
        }
    }

    /// Whether every mine is a listed site.
    pub fn check_mines(&self, site_index: &HashMap<SiteId, SiteIdx>) -> (ok: bool)
        requires
            is_site_index(self.map.sites@, site_index@),
        ensures
            ok == mines_known(self.map.sites@, self.map.mines@),
    {
        let mut k: usize = 0;
        while k < self.map.mines.len()
            invariant
                k <= self.map.mines@.len(),
                is_site_index(self.map.sites@, site_index@),
                forall|j: int| 0 <= j < k ==> has_site(self.map.sites@, #[trigger] self.map.mines@[j]),
            decreases self.map.mines@.len() - k,
        {
            if !site_index.contains_key(&self.map.mines[k]) {
                assert(!has_site(self.map.sites@, self.map.mines@[k as int]));
                return false;
            }
            proof {
                let at = site_index@[self.map.mines@[k as int]] as int;
                assert(self.map.sites@[at].id == self.map.mines@[k as int]);
            }
            k += 1;
        }
        true
    }

    /// Whether every river respects the rule on owners and renters.
    pub fn check_holders(&self) -> (ok: bool)
        ensures
            ok == rivers_wf(self.map.rivers@),
    {
        let mut k: usize = 0;
        while k < self.map.rivers.len()
            invariant
                k <= self.map.rivers@.len(),
                forall|j: int| 0 <= j < k ==> (#[trigger] self.map.rivers@[j]).wf(),
            decreases self.map.rivers@.len() - k,
        {
            let river = self.map.rivers[k];
            match river.renter {
                Some(renter) => {
                    match river.owner {
                        Some(owner) => {
                            if owner == renter {
                                assert(!self.map.rivers@[k as int].wf());
                                return false;
                            }
                        },
                        None => {
                            assert(!self.map.rivers@[k as int].wf());
                            return false;
                        },
                    }
                },
                None => {},
            }
            k += 1;
        }
        true
    }

    /// Whether the scores that this map allows fit the score type.
    pub fn check_size(&self) -> (ok: bool)
        ensures
            ok == fits_scores(
                self.punters as int,
                self.map.mines@.len() as int,
                self.map.sites@.len() as int,
            ),
    {
        let sites = self.map.sites.len() as u64;
        let mines = self.map.mines.len() as u64;
        let punters = self.punters as u64;
        if sites == 0 || mines == 0 || punters == 0 {
            assert(sites * sites * sites * mines * punters == 0) by (nonlinear_arith)
                requires
                    sites == 0 || mines == 0 || punters == 0,
            ;
            return true;
        }
        let square = match sites.checked_mul(sites) {
            Some(x) => x,
            None => {
                assert(sites * sites * sites * mines * punters > u64::MAX) by (nonlinear_arith)
                    requires
                        sites * sites > u64::MAX,
                        sites >= 1,
                        mines >= 1,
                        punters >= 1,
                ;
                return false;
            },
        };
        let cube = match square.checked_mul(sites) {
            Some(x) => x,
            None => {
                assert(sites * sites * sites * mines * punters > u64::MAX) by (nonlinear_arith)
                    requires
                        sites * sites * sites > u64::MAX,
                        mines >= 1,
                        punters >= 1,
                ;
                return false;
            },
        };
        let per_punter = match cube.checked_mul(mines) {
            Some(x) => x,
            None => {
                assert(sites * sites * sites * mines * punters > u64::MAX) by (nonlinear_arith)
                    requires
                        sites * sites * sites * mines > u64::MAX,
                        punters >= 1,
                ;
                return false;
            },
        };
        match per_punter.checked_mul(punters) {
            Some(_) => true,
            None => false,
        }
    }

    /// Stores in every river the positions of its two sites, or reports a
    /// river that ends at an unlisted site.
    pub fn index_rivers(&mut self, site_index: &HashMap<SiteId, SiteIdx>) -> (r: Result<
        (),
        SetupError,
    >)
        requires
            is_site_index(old(self).map.sites@, site_index@),
        ensures
            final(self).punter == old(self).punter,
            final(self).punters == old(self).punters,
            final(self).settings == old(self).settings,
            final(self).map.sites == old(self).map.sites,
            final(self).map.mines == old(self).map.mines,
            same_rivers_but_positions(old(self).map.rivers@, final(self).map.rivers@),
            match r {
                Ok(()) => endpoints_known(old(self).map.sites@, old(self).map.rivers@)
                    && rivers_indexed(final(self).map.sites@, final(self).map.rivers@),
                Err(e) => e == SetupError::UnknownEndpoint && !endpoints_known(
                    old(self).map.sites@,
                    old(self).map.rivers@,
                ),
            },
    {
        let mut k: usize = 0;
        while k < self.map.rivers.len()
            invariant
                k <= self.map.rivers.len(),
                is_site_index(self.map.sites@, site_index@),
                self.punter == old(self).punter,
                self.punters == old(self).punters,
                self.settings == old(self).settings,
                self.map.sites == old(self).map.sites,
                self.map.mines == old(self).map.mines,
                same_rivers_but_positions(old(self).map.rivers@, self.map.rivers@),
                forall|j: int|
                    0 <= j < k ==> has_site(self.map.sites@, (#[trigger] self.map.rivers@[j]).source)
                        && has_site(self.map.sites@, self.map.rivers@[j].target) && river_indexed(
                        self.map.sites@,
                        self.map.rivers@[j],
                    ),
            decreases self.map.rivers.len() - k,
        {
            let river = self.map.rivers[k];
            let source_idx = match site_index.get(&river.source) {
                Some(idx) => *idx,
                None => {
                    assert(!has_site(self.map.sites@, old(self).map.rivers@[k as int].source));
                    return Err(SetupError::UnknownEndpoint);
                },
            };
            let target_idx = match site_index.get(&river.target) {
                Some(idx) => *idx,
                None => {
                    assert(!has_site(self.map.sites@, old(self).map.rivers@[k as int].target));
                    return Err(SetupError::UnknownEndpoint);
                },
            };
            self.map.rivers[k] = River { source_idx, target_idx, ..river };
            proof {
                assert(self.map.sites@[source_idx as int].id == river.source);
                assert(self.map.sites@[target_idx as int].id == river.target);
            }
            k += 1;
        }
        assert forall|j: int| 0 <= j < old(self).map.rivers@.len() implies has_site(
            old(self).map.sites@,
            (#[trigger] old(self).map.rivers@[j]).source,
        ) && has_site(old(self).map.sites@, old(self).map.rivers@[j].target) by {
            assert(self.map.rivers@[j].source == old(self).map.rivers@[j].source);
        }
        Ok(())
    }
}

} // verus!
