use krill_ca::eventsourcing::{
    Aggregate,
    CaHandle, CommandHistoryCriteria, MemAggregateStore, SentCommand, StoreError,
};
use krill_ca::resourceset::ResourceSet;
use krill_ca::trustanchor::{
    ta_handle, TrustAnchor, TrustAnchorCommandDetails, TrustAnchorInitDetails,
};

fn delegation(expected: u64, child: &str, asns: &str, v4: &str, v6: &str) -> SentCommand<
    TrustAnchorCommandDetails,
> {
    let resources = ResourceSet::from_strs(asns, v4, v6).unwrap();
    SentCommand::new(
        ta_handle(),
        expected,
        TrustAnchorCommandDetails::new(CaHandle::new(child), resources),
    )
}

#[test]
fn should_init_ta() {
    let mut store: MemAggregateStore<TrustAnchor> = MemAggregateStore::new();
    let handle = ta_handle();
    let init = TrustAnchorInitDetails::with_all_resources(&handle);

    store.add(handle, init).unwrap();
}

#[test]
fn duplicate_init_fails_and_log_stays() {
    let mut store: MemAggregateStore<TrustAnchor> = MemAggregateStore::new();
    let handle = ta_handle();
    store
        .add(handle.dup(), TrustAnchorInitDetails::with_all_resources(&handle))
        .unwrap();
    let again = store.add(handle.dup(), TrustAnchorInitDetails::with_all_resources(&handle));
    assert!(matches!(again, Err(StoreError::DuplicateHandle)));
    let ta = store.get(&handle).unwrap();
    assert_eq!(ta.version(), 1);
}

#[test]
fn get_unknown_handle_is_not_found() {
    let store: MemAggregateStore<TrustAnchor> = MemAggregateStore::new();
    let r = store.get(&CaHandle::new("nobody"));
    assert!(matches!(r, Err(StoreError::UnknownHandle)));
}

#[test]
fn replay_twice_is_identical() {
    let mut store: MemAggregateStore<TrustAnchor> = MemAggregateStore::new();
    let handle = ta_handle();
    store
        .add(handle.dup(), TrustAnchorInitDetails::with_all_resources(&handle))
        .unwrap();
    store
        .command(delegation(1, "child", "AS1-AS10", "10.0.0.0/8", ""), 100)
        .unwrap();
    let a = store.get(&handle).unwrap();
    let b = store.get(&handle).unwrap();
    assert_eq!(a.version(), b.version());
    assert!(a.resources() == b.resources());
    assert!(a.id().eq_handle(b.id()));
}

#[test]
fn command_bumps_version_by_one_event() {
    let mut store: MemAggregateStore<TrustAnchor> = MemAggregateStore::new();
    let handle = ta_handle();
    store
        .add(handle.dup(), TrustAnchorInitDetails::with_all_resources(&handle))
        .unwrap();
    let v = store
        .command(delegation(1, "child", "AS1-AS10", "", ""), 5)
        .unwrap();
    assert_eq!(v, 2);
    assert_eq!(store.get(&handle).unwrap().version(), 2);
}

#[test]
fn same_expected_version_twice_conflicts_once() {
    let mut store: MemAggregateStore<TrustAnchor> = MemAggregateStore::new();
    let handle = ta_handle();
    store
        .add(handle.dup(), TrustAnchorInitDetails::with_all_resources(&handle))
        .unwrap();
    let first = store.command(delegation(1, "alpha", "AS1-AS10", "", ""), 1);
    assert!(matches!(first, Ok(2)));
    let second = store.command(delegation(1, "beta", "AS11-AS20", "", ""), 2);
    assert!(matches!(
        second,
        Err(StoreError::ConcurrencyConflict { expected: 1, actual: 2 })
    ));
    // The log still holds exactly one record, at version 2.
    assert_eq!(store.get(&handle).unwrap().version(), 2);
    let history = store.history(&handle, CommandHistoryCriteria::unlimited()).unwrap();
    assert_eq!(history.entries.len(), 1);
    assert_eq!(history.entries[0].version_before, 1);
}

#[test]
fn stale_expected_version_leaves_log_alone() {
    let mut store: MemAggregateStore<TrustAnchor> = MemAggregateStore::new();
    let handle = ta_handle();
    store
        .add(handle.dup(), TrustAnchorInitDetails::with_all_resources(&handle))
        .unwrap();
    store.command(delegation(1, "a", "AS1", "", ""), 1).unwrap();
    store.command(delegation(2, "b", "AS2", "", ""), 2).unwrap();
    // The handle is now at version 3; a command expecting 5 must conflict.
    let r = store.command(delegation(5, "c", "AS3", "", ""), 3);
    assert!(matches!(
        r,
        Err(StoreError::ConcurrencyConflict { expected: 5, actual: 3 })
    ));
    assert_eq!(store.get(&handle).unwrap().version(), 3);
    let history = store.history(&handle, CommandHistoryCriteria::unlimited()).unwrap();
    assert_eq!(history.entries.len(), 2);
}

#[test]
fn delegation_needs_held_resources() {
    let mut store: MemAggregateStore<TrustAnchor> = MemAggregateStore::new();
    let handle = ta_handle();
    let held = ResourceSet::from_strs("AS1-AS10", "", "").unwrap();
    store
        .add(handle.dup(), TrustAnchorInitDetails::with_resources(&handle, held))
        .unwrap();
    let refused = store.command(delegation(1, "child", "AS20", "", ""), 1);
    assert!(matches!(refused, Err(StoreError::AggregateError(_))));
    assert_eq!(store.get(&handle).unwrap().version(), 1);
    let granted = store.command(delegation(1, "child", "AS2-AS4", "", ""), 1);
    assert!(matches!(granted, Ok(2)));
}

#[test]
fn history_filters_by_time_and_count() {
    let mut store: MemAggregateStore<TrustAnchor> = MemAggregateStore::new();
    let handle = ta_handle();
    store
        .add(handle.dup(), TrustAnchorInitDetails::with_all_resources(&handle))
        .unwrap();
    store.command(delegation(1, "a", "AS1", "", ""), 10).unwrap();
    store.command(delegation(2, "b", "AS2", "", ""), 20).unwrap();
    store.command(delegation(3, "c", "AS3", "", ""), 30).unwrap();

    let all = store.history(&handle, CommandHistoryCriteria::unlimited()).unwrap();
    assert_eq!(all.entries.len(), 3);
    assert_eq!(all.entries[0].sequence, 0);
    assert_eq!(all.entries[0].time, 10);
    assert_eq!(all.entries[2].version_before, 3);

    let late = store
        .history(
            &handle,
            CommandHistoryCriteria { after: Some(15), before: None, max: None },
        )
        .unwrap();
    assert_eq!(late.entries.len(), 2);
    assert_eq!(late.entries[0].sequence, 1);

    let capped = store
        .history(
            &handle,
            CommandHistoryCriteria { after: None, before: None, max: Some(1) },
        )
        .unwrap();
    assert_eq!(capped.entries.len(), 1);
    assert_eq!(capped.entries[0].sequence, 0);
}

#[test]
fn command_details_resolves_by_key() {
    let mut store: MemAggregateStore<TrustAnchor> = MemAggregateStore::new();
    let handle = ta_handle();
    store
        .add(handle.dup(), TrustAnchorInitDetails::with_all_resources(&handle))
        .unwrap();
    store.command(delegation(1, "a", "AS1", "", ""), 10).unwrap();
    let rec = store.command_details(&handle, 0).unwrap();
    assert_eq!(rec.time, 10);
    assert_eq!(rec.version_before, 1);
    assert_eq!(rec.events_count, 1);
    assert!(matches!(
        store.command_details(&handle, 9),
        Err(StoreError::UnknownCommand)
    ));
    assert!(matches!(
        store.command_details(&CaHandle::new("nobody"), 0),
        Err(StoreError::UnknownHandle)
    ));
}
