use curp_log::state::{CompactorAction, LeaseAction, RoleActions, State};
use std::sync::atomic::{AtomicBool, Ordering};
use std::sync::Arc;
use std::time::Duration;

/// A lease storage that only knows whether it is the primary.
#[derive(Default)]
struct LeaseStore {
    primary: AtomicBool,
}

impl LeaseStore {
    fn apply(&self, actions: RoleActions) {
        let primary = match actions.lease {
            LeaseAction::Promote(_) => true,
            LeaseAction::Demote => false,
        };
        self.primary.store(primary, Ordering::Relaxed);
    }

    fn is_primary(&self) -> bool {
        self.primary.load(Ordering::Relaxed)
    }
}

#[test]
fn state_uses_election_timeout_for_promote() {
    let lease_storage = Arc::new(LeaseStore::default());
    let election_timeout = Duration::from_millis(1500);
    let state: State<LeaseStore, ()> =
        State::new(Arc::clone(&lease_storage), None, election_timeout);

    assert!(!lease_storage.is_primary());

    let actions = state.on_election_win();
    assert_eq!(actions.lease, LeaseAction::Promote(Duration::from_millis(1500)));
    state.lease_storage.apply(actions);

    assert!(lease_storage.is_primary());
}

#[test]
fn state_on_calibrate_demotes() {
    let lease_storage = Arc::new(LeaseStore::default());
    let state: State<LeaseStore, ()> =
        State::new(Arc::clone(&lease_storage), None, Duration::from_millis(1500));

    state.lease_storage.apply(state.on_election_win());
    assert!(lease_storage.is_primary());

    state.lease_storage.apply(state.on_calibrate());
    assert!(!lease_storage.is_primary());
}

#[test]
fn election_timeout_computation() {
    let heartbeat_interval = Duration::from_millis(300);
    let follower_timeout_ticks: u8 = 5;
    let expected = Duration::from_millis(1500); // 300ms * 5

    let computed = heartbeat_interval.saturating_mul(u32::from(follower_timeout_ticks));
    assert_eq!(computed, expected);

    let state: State<(), ()> = State::new(Arc::new(()), None, computed);
    assert_eq!(state.on_election_win().lease, LeaseAction::Promote(expected));
}

#[test]
fn compactor_follows_the_role() {
    let state: State<(), str> =
        State::new(Arc::new(()), Some(Arc::from("compactor")), Duration::from_millis(1));
    assert_eq!(state.on_election_win().compactor, Some(CompactorAction::Resume));
    assert_eq!(state.on_calibrate().compactor, Some(CompactorAction::Pause));

    let copy = state.clone();
    assert!(Arc::ptr_eq(&copy.lease_storage, &state.lease_storage));
    assert_eq!(copy.election_timeout, state.election_timeout);
    assert_eq!(copy.on_calibrate(), state.on_calibrate());

    let state: State<(), str> = State::new(Arc::new(()), None, Duration::from_millis(1));
    assert_eq!(state.on_election_win().compactor, None);
    assert_eq!(state.on_calibrate().compactor, None);
}
