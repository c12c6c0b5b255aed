//! The CA orchestrator: owns the Trust Anchor's aggregate store, dispatches
//! commands by handle, and records every durably appended event on an
//! asynchronous side-effect queue for later publication.

use vstd::prelude::*;

use crate::eventsourcing::{
    event_views, replay_events, spec_history, spec_replay, Aggregate, CaHandle, CommandHistory,
    CommandHistoryCriteria, CommandRecord, MemAggregateStore, StoreError,
};
use crate::resourceset::universal_sig;
use crate::trustanchor::{
    ta_handle, Error, TrustAnchor, TrustAnchorCommand, TrustAnchorCommandDetails,
    TrustAnchorInitDetails,
};

verus! {

/// Manages the Trust Anchor namespace: one aggregate store, plus a queue of
/// (handle, version) references to events appended by successful commands
/// and not yet handed to publication. Queue delivery is decoupled from the
/// transaction: a caller that saw success is guaranteed durability, not yet
/// delivery.
pub struct CaServer {
    pub ta_store: MemAggregateStore<TrustAnchor>,
    pub queue: Vec<(CaHandle, u64)>,
}

impl CaServer {
    pub open spec fn wf(self) -> bool {
        self.ta_store.wf()
    }

    pub fn new() -> (r: CaServer)
        ensures
            r.wf(),
            r.ta_store.logs@.len() == 0,
            r.queue@.len() == 0,
    {
        CaServer { ta_store: MemAggregateStore::new(), queue: Vec::new() }
    }

    /// Creates the Trust Anchor under the well-known handle, holding the
    /// universal resource set. Fails when it already exists; the store is
    /// then unchanged.
    pub fn init_ta(&mut self) -> (r: Result<(), StoreError<Error>>)
        requires
            old(self).wf(),
        ensures
            final(self).wf(),
            final(self).queue@ == old(self).queue@,
            ({
                if old(self).ta_store.has_handle("ta"@) {
                    &&& r matches Err(StoreError::DuplicateHandle)
                    &&& final(self).ta_store.logs@ == old(self).ta_store.logs@
                } else {
                    &&& r is Ok
                    &&& final(self).ta_store.logs@.len() == old(self).ta_store.logs@.len() + 1
                    &&& final(self).ta_store.logs@.subrange(
                        0,
                        old(self).ta_store.logs@.len() as int,
                    ) == old(self).ta_store.logs@
                    &&& final(self).ta_store.logs@.last().handle.text() == "ta"@
                    &&& final(self).ta_store.logs@.last().version == 1
                    &&& final(self).ta_store.logs@.last().events@.len() == 0
                    &&& final(self).ta_store.logs@.last().records@.len() == 0
                    &&& final(self).ta_store.logs@.last().init.version == 0
                    &&& final(self).ta_store.logs@.last().init.details.res_sig()
                        == universal_sig()
                }
            }),
    {
        let handle = ta_handle();
        let init = TrustAnchorInitDetails::with_all_resources(&handle);
        self.ta_store.add(handle, init)
    }

    /// Dispatches one command against the Trust Anchor's log under
    /// optimistic concurrency; after a successful append, the new events are
    /// put on the side-effect queue.
    #[verifier::loop_isolation(false)]
    pub fn ta_command(&mut self, cmd: TrustAnchorCommand, time: u64) -> (r: Result<
        u64,
        StoreError<Error>,
    >)
        requires
            old(self).wf(),
        ensures
            final(self).wf(),
            ({
                let h = cmd.handle.text();
                if !old(self).ta_store.has_handle(h) {
                    &&& r matches Err(StoreError::UnknownHandle)
                    &&& final(self).ta_store.logs@ == old(self).ta_store.logs@
                    &&& final(self).queue@ == old(self).queue@
                } else {
                    let l = old(self).ta_store.log_at(h);
                    let st = spec_replay::<TrustAnchor>(l);
                    if cmd.version_expected != l.version {
                        &&& r matches Err(StoreError::ConcurrencyConflict {
                            expected,
                            actual,
                        }) && expected == cmd.version_expected && actual == l.version
                        &&& final(self).ta_store.logs@ == old(self).ta_store.logs@
                        &&& final(self).queue@ == old(self).queue@
                    } else {
                        match TrustAnchor::spec_process(st, cmd) {
                            Err(e) => {
                                &&& r matches Err(StoreError::AggregateError(e2)) && e2 == e
                                &&& final(self).ta_store.logs@ == old(self).ta_store.logs@
                                &&& final(self).queue@ == old(self).queue@
                            },
                            Ok(evs) => {
                                if evs.len() > u64::MAX - l.version {
                                    &&& r matches Err(StoreError::VersionExhausted)
                                    &&& final(self).ta_store.logs@ == old(self).ta_store.logs@
                                    &&& final(self).queue@ == old(self).queue@
                                } else {
                                    let nl = final(self).ta_store.log_at(h);
                                    &&& r matches Ok(v) && v as int == l.version + evs.len()
                                    &&& final(self).ta_store.has_handle(h)
                                    &&& nl.handle == l.handle
                                    &&& nl.init == l.init
                                    &&& nl.version as int == l.version + evs.len()
                                    &&& nl.records@ =~= l.records@.push(
                                        CommandRecord {
                                            time,
                                            version_before: l.version,
                                            events_count: evs.len() as u64,
                                            command: cmd,
                                        },
                                    )
                                    &&& final(self).ta_store.logs@.len() == old(
                                        self,
                                    ).ta_store.logs@.len()
                                    &&& forall|k: int|
                                        #![trigger old(self).ta_store.logs@[k]]
                                        (0 <= k < old(self).ta_store.logs@.len()
                                            && old(self).ta_store.logs@[k].handle.text() != h)
                                            ==> final(self).ta_store.logs@[k] == old(
                                            self,
                                        ).ta_store.logs@[k]
                                    &&& event_views::<TrustAnchor>(nl.events@) == event_views::<
                                        TrustAnchor,
                                    >(l.events@) + evs
                                    &&& spec_replay::<TrustAnchor>(nl) == replay_events::<
                                        TrustAnchor,
                                    >(st, evs)
                                    &&& final(self).queue@.len() == old(self).queue@.len()
                                        + evs.len()
                                    &&& final(self).queue@.subrange(
                                        0,
                                        old(self).queue@.len() as int,
                                    ) == old(self).queue@
                                    &&& forall|t: int|
                                        #![trigger final(self).queue@[old(self).queue@.len() + t]]
                                        0 <= t < evs.len()
                                            ==> final(self).queue@[old(self).queue@.len()
                                            + t].0.text() == h && final(self).queue@[old(
                                            self,
                                        ).queue@.len() + t].1 as int == l.version + 1 + t
                                }
                            },
                        }
                    }
                }
            }),
    {
        let ghost h = cmd.handle.text();
        let ghost old_store = self.ta_store;
        let handle_copy = cmd.handle.dup();
        let expected = cmd.version_expected;
        let r = self.ta_store.command(cmd, time);
        match r {
            Ok(new_version) => {
                proof {
                    assert(old_store.log_at(h).version == expected);
                }
                let ghost q0 = self.queue@;
                let ghost store_after = self.ta_store;
                let mut v = expected;
                while v < new_version
                    invariant
                        expected <= v <= new_version,
                        handle_copy.text() == h,
                        self.ta_store == store_after,
                        self.queue@.len() == q0.len() + (v - expected),
                        self.queue@.subrange(0, q0.len() as int) == q0,
                        forall|t: int|
                            0 <= t < v - expected ==> (#[trigger] self.queue@[q0.len() + t]).0.text()
                                == h && self.queue@[q0.len() + t].1 as int == expected + 1 + t,
                    decreases new_version - v,
                {
                    self.queue.push((handle_copy.dup(), v + 1));
                    proof {
                        assert(self.queue@.subrange(0, q0.len() as int) =~= q0);
                    }
                    v += 1;
                }
                Ok(new_version)
            },
            Err(e) => Err(e),
        }
    }

    /// The Trust Anchor namespace's history, filtered by the criteria.
    pub fn get_ca_history(&self, handle: &CaHandle, criteria: CommandHistoryCriteria) -> (r:
        Result<CommandHistory, StoreError<Error>>)
        requires
            self.wf(),
        ensures
            match r {
                Ok(hi) => self.ta_store.has_handle(handle.text()) && hi.entries@ == spec_history(
                    self.ta_store.log_at(handle.text()).records@,
                    criteria.after,
                    criteria.before,
                    0,
                    match criteria.max {
                        Some(m) => m as nat,
                        None => self.ta_store.log_at(handle.text()).records@.len(),
                    },
                ),
                Err(e) => (e matches StoreError::UnknownHandle) && !self.ta_store.has_handle(
                    handle.text(),
                ),
            },
    {
        self.ta_store.history(handle, criteria)
    }

    /// One historical command, by its per-handle key.
    pub fn get_ca_command_details(&self, handle: &CaHandle, key: u64) -> (r: Result<
        &CommandRecord<TrustAnchorCommandDetails>,
        StoreError<Error>,
    >)
        requires
            self.wf(),
        ensures
            match r {
                Ok(rec) => self.ta_store.has_handle(handle.text()) && key < self.ta_store.log_at(
                    handle.text(),
                ).records@.len() && *rec == self.ta_store.log_at(handle.text()).records@[
                    key as int],
                Err(e) => {
                    ||| (e matches StoreError::UnknownHandle) && !self.ta_store.has_handle(
                        handle.text(),
                    )
                    ||| (e matches StoreError::UnknownCommand) && self.ta_store.has_handle(
                        handle.text(),
                    ) && key >= self.ta_store.log_at(handle.text()).records@.len()
                },
            },
    {
        self.ta_store.command_details(handle, key)
    }

    /// Hands the queued side effects to the caller and empties the queue.
    pub fn drain_queue(&mut self) -> (r: Vec<(CaHandle, u64)>)
        requires
            old(self).wf(),
        ensures
            final(self).wf(),
            final(self).ta_store == old(self).ta_store,
            final(self).queue@.len() == 0,
            r@ == old(self).queue@,
    {
        let mut out: Vec<(CaHandle, u64)> = Vec::new();
        core::mem::swap(&mut out, &mut self.queue);
        out
    }
}

} // verus!
