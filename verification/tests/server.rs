use krill_ca::eventsourcing::{Aggregate, CaHandle, SentCommand, StoreError};
use krill_ca::resourceset::ResourceSet;
use krill_ca::server::CaServer;
use krill_ca::trustanchor::{ta_handle, TrustAnchorCommandDetails};

#[test]
fn end_to_end_trust_anchor() {
    let mut server = CaServer::new();
    server.init_ta().unwrap();

    let ta = server.ta_store.get(&ta_handle()).unwrap();
    assert_eq!(ta.version(), 1);
    let child = ResourceSet::from_strs("AS1-AS100", "10.0.0.0/8", "2001:db8::/32").unwrap();
    assert!(ta.resources().encompasses(&child));

    let cmd = SentCommand::new(
        ta_handle(),
        1,
        TrustAnchorCommandDetails::new(CaHandle::new("child"), child),
    );
    let v = server.ta_command(cmd, 42).unwrap();
    assert_eq!(v, 2);

    let queued = server.drain_queue();
    assert_eq!(queued.len(), 1);
    assert!(queued[0].0.eq_handle(&ta_handle()));
    assert_eq!(queued[0].1, 2);
    assert_eq!(server.drain_queue().len(), 0);
}

#[test]
fn init_ta_twice_fails() {
    let mut server = CaServer::new();
    server.init_ta().unwrap();
    assert!(matches!(server.init_ta(), Err(StoreError::DuplicateHandle)));
}

#[test]
fn server_history_follows_commands() {
    let mut server = CaServer::new();
    server.init_ta().unwrap();
    let rs = ResourceSet::from_strs("AS1", "", "").unwrap();
    let cmd = SentCommand::new(
        ta_handle(),
        1,
        TrustAnchorCommandDetails::new(CaHandle::new("c"), rs),
    );
    server.ta_command(cmd, 7).unwrap();
    let history = server
        .get_ca_history(
            &ta_handle(),
            krill_ca::eventsourcing::CommandHistoryCriteria::unlimited(),
        )
        .unwrap();
    assert_eq!(history.entries.len(), 1);
    assert_eq!(history.entries[0].time, 7);
    let rec = server.get_ca_command_details(&ta_handle(), 0).unwrap();
    assert_eq!(rec.command.version_expected, 1);
}
