//! Rivers and who holds them.

use vstd::prelude::*;

verus! {

/// Zero-based identifier of a player.
pub type PunterId = usize;

/// Identifier of a site as the referee names it.
pub type SiteId = usize;

/// Dense zero-based position of a site in the setup's site list.
pub type SiteIdx = usize;

/// Dense zero-based position of a river in the setup's river list.
pub type RiverIdx = usize;

/// An undirected edge of the map together with its holders.
///
/// `source` and `target` are the referee's site identifiers; `source_idx` and
/// `target_idx` are the positions of those sites in the site list.
#[derive(Debug, Clone, Copy)]
pub struct River {
    pub source: SiteId,
    pub target: SiteId,
    pub owner: Option<PunterId>,
    pub renter: Option<PunterId>,
    pub source_idx: SiteIdx,
    pub target_idx: SiteIdx,
}

impl River {
    /// A river is rented only once it is owned, and never by its owner.
    pub open spec fn wf(&self) -> bool {
        self.renter is Some ==> self.owner is Some && self.owner != self.renter
    }

    /// Whether `punter` may travel along this river.
    pub open spec fn held_by(&self, punter: PunterId) -> bool {
        self.owner == Some(punter) || self.renter == Some(punter)
    }

    /// Whether `punter` can still be given a share of this river.
    pub open spec fn admits(&self, punter: PunterId) -> bool {
        self.renter is None && self.owner != Some(punter)
    }

    /// The river once `punter` has been given the first free share of it.
    pub open spec fn with_holder(self, punter: PunterId) -> River {
        if self.owner is Some {
            River { renter: Some(punter), ..self }
        } else {
            River { owner: Some(punter), ..self }
        }
    }

    /// Whether `site` is one of the two ends.
    pub open spec fn touches(&self, site: int) -> bool {
        self.source_idx == site || self.target_idx == site
    }

    /// The end opposite to `site`.
    pub open spec fn across(&self, site: int) -> int {
        if site == self.source_idx {
            self.target_idx as int
        } else {
            self.source_idx as int
        }
    }

    /// Whether the river joins `a` and `b`, in either direction.
    pub open spec fn joins(&self, a: int, b: int) -> bool {
        (self.source_idx == a && self.target_idx == b) || (self.source_idx == b && self.target_idx
            == a)
    }

    /// Whether the river runs between the sites that the referee calls `a`
    /// and `b`, in either direction.
    pub open spec fn links(&self, a: SiteId, b: SiteId) -> bool {
        (self.source == a && self.target == b) || (self.source == b && self.target == a)
    }

    /// A river nobody holds, between the named sites.
    pub fn new(source: SiteId, target: SiteId) -> (river: River)
        ensures
            river == (River {
                source,
                target,
                owner: None,
                renter: None,
                source_idx: 0,
                target_idx: 0,
            }),
            river.wf(),
    {
        River { source, target, owner: None, renter: None, source_idx: 0, target_idx: 0 }
    }

    /// Tests what `add_owner` asks of its caller.
    pub fn can_add_owner(&self, punter: PunterId) -> (ok: bool)
        ensures
            ok == self.admits(punter),
    {
        let free = match self.renter {
            Some(_) => false,
            None => true,
        };
        let fresh = match self.owner {
            Some(o) => o != punter,
            None => true,
        };
        free && fresh
    }

    /// Whether `punter` may travel along this river.
    pub fn is_held_by(&self, punter: PunterId) -> (held: bool)
        ensures
            held == self.held_by(punter),
    {
        let owns = match self.owner {
            Some(o) => o == punter,
            None => false,
        };
        let rents = match self.renter {
            Some(o) => o == punter,
            None => false,
        };
        owns || rents
    }

    /// Gives `punter` the ownership if it is free, the rent otherwise.
    pub fn add_owner(&mut self, punter: PunterId)
        requires
            old(self).admits(punter),
        ensures
            *final(self) == old(self).with_holder(punter),
            old(self).wf() ==> final(self).wf(),
            final(self).held_by(punter),
    {
        if self.owner.is_some() {
            self.renter = Some(punter);
        } else {
            self.owner = Some(punter);
        }
    }

    /// The end opposite to `site`, which must be one of the two ends.
    pub fn other_index(&self, site: SiteIdx) -> (other: SiteIdx)
        requires
            self.touches(site as int),
        ensures
            other == self.across(site as int),
            self.joins(site as int, other as int),
    {
        if site == self.source_idx {
            self.target_idx
        } else {
            self.source_idx
        }
    }
}

} // verus!
