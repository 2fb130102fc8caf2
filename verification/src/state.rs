//! What a node does when its role changes.

use std::sync::Arc;
use std::time::Duration;
use vstd::prelude::*;

verus! {

/// What is to be done with the lease storage.
#[derive(Clone, Copy, Debug, PartialEq, Eq)]
pub enum LeaseAction {
    /// Make it the primary, with all leases extended by the given time
    Promote(Duration),
    /// Make it a secondary
    Demote,
}

/// What is to be done with the auto compactor.
#[derive(Clone, Copy, Debug, PartialEq, Eq)]
pub enum CompactorAction {
    /// Let it run
    Resume,
    /// Stop it
    Pause,
}

/// The reaction to a change of role: first the lease storage is acted on, then the auto
/// compactor, if there is one.
#[derive(Clone, Copy, Debug, PartialEq, Eq)]
pub struct RoleActions {
    /// What is to be done with the lease storage
    pub lease: LeaseAction,
    /// What is to be done with the auto compactor
    pub compactor: Option<CompactorAction>,
}

/// The parts of a node that a change of role concerns: the lease storage, of type `L`, and the
/// auto compactor, of type `K`. Clones share both.
pub struct State<L, K: ?Sized> {
    /// The lease storage
    pub lease_storage: Arc<L>,
    /// The auto compactor
    pub auto_compactor: Option<Arc<K>>,
    /// The election timeout, by which leases are extended on promotion
    pub election_timeout: Duration,
}

impl<L, K: ?Sized> Clone for State<L, K> {
    fn clone(&self) -> (copy: Self)
        ensures
            copy == *self,
    {
        State {
            lease_storage: Arc::clone(&self.lease_storage),
            auto_compactor: match &self.auto_compactor {
                Some(compactor) => Some(Arc::clone(compactor)),
                None => None,
            },
            election_timeout: self.election_timeout,
        }
    }
}

impl<L, K: ?Sized> State<L, K> {
    /// Creates a state.
    pub fn new(
        lease_storage: Arc<L>,
        auto_compactor: Option<Arc<K>>,
        election_timeout: Duration,
    ) -> (state: Self)
        ensures
            state == (State { lease_storage, auto_compactor, election_timeout }),
    {
        State { lease_storage, auto_compactor, election_timeout }
    }

    /// The node won an election: the leases are promoted and outlive the election timeout, and
    /// compaction runs.
    pub fn on_election_win(&self) -> (actions: RoleActions)
        ensures
            actions.lease == LeaseAction::Promote(self.election_timeout),
            actions.compactor == match self.auto_compactor {
                Some(_) => Some(CompactorAction::Resume),
                None => None,
            },
    {
        let compactor = match &self.auto_compactor {
            Some(_) => Some(CompactorAction::Resume),
            None => None,
        };
        RoleActions { lease: LeaseAction::Promote(self.election_timeout), compactor }
    }

    /// The node is no longer the leader: the leases are demoted and compaction stops.
    pub fn on_calibrate(&self) -> (actions: RoleActions)
        ensures
            actions.lease == LeaseAction::Demote,
            actions.compactor == match self.auto_compactor {
                Some(_) => Some(CompactorAction::Pause),
                None => None,
            },
    {
        let compactor = match &self.auto_compactor {
            Some(_) => Some(CompactorAction::Pause),
            None => None,
        };
        RoleActions { lease: LeaseAction::Demote, compactor }
    }
}

} // verus!
