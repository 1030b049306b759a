//! Routing policies: which output ports a packet for a given location must
//! reach.

use crate::fx::{map_get, set_clone};
use fxhash::{FxHashMap, FxHashSet};
use std::hash::Hash;
use vstd::pervasive::unreached;
use vstd::prelude::*;
use vstd::std_specs::hash::obeys_key_model;

verus! {

/// A Policy is a (possibly) time-varying mapping between target locations and
/// their output ports.
///
/// At any moment a policy stands for a routing table. A lookup answers from
/// the table of that moment with the whole set of ports, all of which must
/// receive the packet. A policy is free to stand for another table once it
/// has answered.
pub trait Policy<LocationType> {
    /// Whether the policy is in a state in which it can be asked. A policy
    /// that states nothing can always be asked.
    open spec fn wf(&self) -> bool {
        true
    }

    /// The routing table that the policy stands for right now. A policy
    /// states it; one that does not is taken to route nothing.
    open spec fn routes(&self) -> Map<LocationType, Set<usize>> {
        Map::empty()
    }

    /// Whether one lookup of `target` can leave the policy as `next`. A
    /// policy states how far a lookup changes it; of one that does not, any
    /// change is possible.
    open spec fn changes_to(&self, target: LocationType, next: &Self) -> bool {
        true
    }

    /// Whether the policy can route `target` right now.
    fn has_route(&self, target: &LocationType) -> (known: bool)
        requires
            self.wf(),
        ensures
            known == self.routes().contains_key(*target),
    ;

    /// The output ports of `target`. A location without a route is a mistake
    /// in the setup, not something to recover from: callers rule it out.
    fn route(&mut self, target: &LocationType) -> (outputs: FxHashSet<usize>)
        requires
            old(self).wf(),
            old(self).routes().contains_key(*target),
        ensures
            final(self).wf(),
            outputs@ == old(self).routes()[*target],
            old(self).changes_to(*target, final(self)),
    ;
}

/// The static policy: a table from locations to their output ports.
impl<LocationType: Eq + Hash> Policy<LocationType> for FxHashMap<
    LocationType,
    FxHashSet<usize>,
> {
    /// A table can be asked when the hashing and equality of its keys can be
    /// relied on.
    open spec fn wf(&self) -> bool {
        obeys_key_model::<LocationType>()
    }

    /// The table itself, each set of ports by its contents.
    open spec fn routes(&self) -> Map<LocationType, Set<usize>> {
        self@.map_values(|outputs: FxHashSet<usize>| outputs@)
    }

    /// A lookup leaves the table as it is.
    open spec fn changes_to(&self, target: LocationType, next: &Self) -> bool {
        next@ == self@
    }

    fn has_route(&self, target: &LocationType) -> (known: bool) {
        map_get(self, target).is_some()
    }

    /// Answers with a copy of the stored set.
    fn route(&mut self, target: &LocationType) -> (outputs: FxHashSet<usize>) {
        match map_get(self, target) {
            Some(set) => set_clone(set),
            None => unreached(),
        }
    }
}

} // verus!
