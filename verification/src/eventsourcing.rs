//! The event-sourcing framework: command and event envelopes, the contract
//! every aggregate satisfies, and an append-only store that reconstructs
//! aggregate state by replaying its log in order.

use vstd::prelude::*;

verus! {

/// Stable identifier of one aggregate instance.
#[derive(Debug)]
pub struct CaHandle {
    pub name: String,
}

impl CaHandle {
    /// The identifier's text.
    pub open spec fn text(self) -> Seq<char> {
        self.name@
    }

    pub fn new(s: &str) -> (h: CaHandle)
        ensures
            h.text() == s@,
    {
        CaHandle { name: s.to_owned() }
    }

    /// A copy naming the same aggregate.
    pub fn dup(&self) -> (h: CaHandle)
        ensures
            h == *self,
    {
        CaHandle { name: self.name.clone() }
    }

    pub fn eq_handle(&self, other: &CaHandle) -> (b: bool)
        ensures
            b == (self.text() == other.text()),
    {
        self.name == other.name
    }
}

/// An immutable fact in an aggregate's log: the aggregate it belongs to, the
/// version the aggregate reaches by applying it, and the event details.
#[derive(Debug)]
pub struct StoredEvent<D> {
    pub handle: CaHandle,
    pub version: u64,
    pub details: D,
}

impl<D> StoredEvent<D> {
    pub fn new(handle: CaHandle, version: u64, details: D) -> (r: StoredEvent<D>)
        ensures
            r.handle == handle && r.version == version && r.details == details,
    {
        StoredEvent { handle, version, details }
    }

    /// Decomposes the envelope; used once, by `Aggregate::init`.
    pub fn unwrap(self) -> (r: (CaHandle, u64, D))
        ensures
            r.0 == self.handle && r.1 == self.version && r.2 == self.details,
    {
        (self.handle, self.version, self.details)
    }
}

/// A request to change an aggregate, carrying the version it expects to
/// apply against.
#[derive(Debug)]
pub struct SentCommand<D> {
    pub handle: CaHandle,
    pub version_expected: u64,
    pub details: D,
}

impl<D> SentCommand<D> {
    pub fn new(handle: CaHandle, version_expected: u64, details: D) -> (r: SentCommand<D>)
        ensures
            r.handle == handle && r.version_expected == version_expected && r.details == details,
    {
        SentCommand { handle, version_expected, details }
    }
}

/// Binds a command-details type to the one event type its processing may
/// produce, so unrelated command and event families cannot be cross-wired.
pub trait CommandDetails {
    type Event;
}

/// The contract of every aggregate: deterministic initialization from a
/// genesis event, versioning, event application, and side-effect-free
/// command processing. All behaviour is pinned to a mathematical state view,
/// so replaying the same log always yields the same state.
pub trait Aggregate: Sized {
    /// Details of the genesis event.
    type Init;

    /// Details of ordinary events.
    type Event;

    /// Details of commands.
    type Command;

    /// Domain error returned by `init` and `process_command`.
    type Error;

    /// Mathematical model of the aggregate state.
    type StateView;

    /// Mathematical model of one event.
    type EventView;

    /// The state this value models.
    spec fn st(self) -> Self::StateView;

    /// The model of one event's details.
    spec fn ev_view(e: Self::Event) -> Self::EventView;

    /// What initialization yields for a genesis event.
    spec fn spec_init(e: StoredEvent<Self::Init>) -> Result<Self::StateView, Self::Error>;

    /// How one event advances the state.
    spec fn spec_apply(st: Self::StateView, e: Self::EventView) -> Self::StateView;

    /// The version recorded in a state.
    spec fn spec_version(st: Self::StateView) -> int;

    /// What processing a command yields: the events realizing it, or a
    /// domain error.
    spec fn spec_process(st: Self::StateView, c: SentCommand<Self::Command>) -> Result<
        Seq<Self::EventView>,
        Self::Error,
    >;

    /// The only path from uninitialized to initialized state.
    fn init(e: &StoredEvent<Self::Init>) -> (r: Result<Self, Self::Error>)
        ensures
            ({
                let s = Self::spec_init(*e);
                &&& r is Ok <==> s is Ok
                &&& r is Ok ==> r->Ok_0.st() == s->Ok_0
                &&& r is Err ==> r->Err_0 == s->Err_0
            }),
    ;

    /// Current version of the aggregate.
    fn version(&self) -> (v: u64)
        ensures
            v as int == Self::spec_version(self.st()),
    ;

    /// Applies one event; the only path from version N to N + 1.
    fn apply(&mut self, e: &Self::Event)
        requires
            Self::spec_version(old(self).st()) < u64::MAX,
        ensures
            final(self).st() == Self::spec_apply(old(self).st(), Self::ev_view(*e)),
    ;

    /// Initialization yields version 1.
    proof fn law_init_version(e: StoredEvent<Self::Init>)
        ensures
            Self::spec_init(e) matches Ok(st) ==> Self::spec_version(st) == 1,
    ;

    /// Applying an event advances the version by exactly one.
    proof fn law_apply_version(st: Self::StateView, e: Self::EventView)
        ensures
            Self::spec_version(Self::spec_apply(st, e)) == Self::spec_version(st) + 1,
    ;

    /// Validates a command against the current state and returns the events
    /// that realize it, without mutating the state.
    fn process_command(&self, c: &SentCommand<Self::Command>) -> (r: Result<
        Vec<Self::Event>,
        Self::Error,
    >)
        ensures
            ({
                let s = Self::spec_process(self.st(), *c);
                &&& r is Ok <==> s is Ok
                &&& r is Ok ==> r->Ok_0@.map_values(|ev: Self::Event| Self::ev_view(ev))
                    == s->Ok_0
                &&& r is Err ==> r->Err_0 == s->Err_0
            }),
    ;
}

/// Folds events into a state, in order.
pub open spec fn replay_events<A: Aggregate>(st: A::StateView, evs: Seq<A::EventView>) -> A::StateView
    decreases evs.len(),
{
    if evs.len() == 0 {
        st
    } else {
        replay_events::<A>(A::spec_apply(st, evs[0]), evs.drop_first())
    }
}

/// The models of the stored events, in log order.
pub open spec fn event_views<A: Aggregate>(evs: Seq<StoredEvent<A::Event>>) -> Seq<A::EventView> {
    evs.map_values(|e: StoredEvent<A::Event>| A::ev_view(e.details))
}

/// The state a log reconstructs: initialize from the genesis event, then
/// apply every stored event in order.
pub open spec fn spec_replay<A: Aggregate>(l: AggregateLog<A>) -> A::StateView
    recommends
        A::spec_init(l.init) is Ok,
{
    replay_events::<A>(A::spec_init(l.init)->Ok_0, event_views::<A>(l.events@))
}

/// Replay is deterministic: logs with the same genesis event and the same
/// event models reconstruct exactly the same state, however often they are
/// replayed.
pub proof fn lemma_replay_deterministic<A: Aggregate>(l1: AggregateLog<A>, l2: AggregateLog<A>)
    requires
        l1.init == l2.init,
        event_views::<A>(l1.events@) == event_views::<A>(l2.events@),
    ensures
        spec_replay::<A>(l1) == spec_replay::<A>(l2),
{
}


/// Replaying a concatenation is replaying the first part, then the second.
pub proof fn lemma_replay_split<A: Aggregate>(
    st: A::StateView,
    e1: Seq<A::EventView>,
    e2: Seq<A::EventView>,
)
    ensures
        replay_events::<A>(st, e1 + e2) == replay_events::<A>(replay_events::<A>(st, e1), e2),
    decreases e1.len(),
{
    if e1.len() == 0 {
        assert(e1 + e2 =~= e2);
    } else {
        assert((e1 + e2).drop_first() =~= e1.drop_first() + e2);
        assert((e1 + e2)[0] == e1[0]);
        lemma_replay_split::<A>(A::spec_apply(st, e1[0]), e1.drop_first(), e2);
    }
}

/// Why a store operation failed.
#[derive(Debug)]
pub enum StoreError<E> {
    /// No log exists for the handle.
    UnknownHandle,
    /// A log already exists for the handle.
    DuplicateHandle,
    /// No command with the given key exists for the handle.
    UnknownCommand,
    /// The command expected another version than the log holds.
    ConcurrencyConflict { expected: u64, actual: u64 },
    /// The log cannot number any further events.
    VersionExhausted,
    /// Initialization or command processing failed in the aggregate.
    AggregateError(E),
}


/// What history records a criteria-filtered scan yields, walking the records
/// from `i` on with `left` slots remaining.
pub open spec fn spec_history<C>(
    records: Seq<CommandRecord<C>>,
    after: Option<u64>,
    before: Option<u64>,
    i: int,
    left: nat,
) -> Seq<CommandHistoryEntry>
    decreases records.len() - i,
{
    if i < 0 || i >= records.len() || left == 0 {
        Seq::<CommandHistoryEntry>::empty()
    } else {
        if crit_matches(after, before, records[i].time) {
            seq![
                CommandHistoryEntry {
                    sequence: i as u64,
                    time: records[i].time,
                    version_before: records[i].version_before,
                },
            ] + spec_history(records, after, before, i + 1, (left - 1) as nat)
        } else {
            spec_history(records, after, before, i + 1, left)
        }
    }
}

/// The record's time lies within the criteria's bounds.
pub open spec fn crit_matches(after: Option<u64>, before: Option<u64>, time: u64) -> bool {
    &&& (after matches Some(a) ==> time >= a)
    &&& (before matches Some(b) ==> time <= b)
}

/// Which part of a handle's history a query asks for: a time range and a
/// maximum record count; the default asks for everything.
#[derive(Clone, Copy, PartialEq, Eq, Structural, Debug)]
pub struct CommandHistoryCriteria {
    pub after: Option<u64>,
    pub before: Option<u64>,
    pub max: Option<usize>,
}

impl CommandHistoryCriteria {
    /// The unfiltered query.
    pub fn unlimited() -> (r: CommandHistoryCriteria)
        ensures
            r.after is None && r.before is None && r.max is None,
    {
        CommandHistoryCriteria { after: None, before: None, max: None }
    }
}

/// One line of a handle's history.
#[derive(Clone, Copy, PartialEq, Eq, Structural, Debug)]
pub struct CommandHistoryEntry {
    pub sequence: u64,
    pub time: u64,
    pub version_before: u64,
}

/// An ordered, criteria-filtered view over a handle's persisted commands.
#[derive(Debug)]
pub struct CommandHistory {
    pub entries: Vec<CommandHistoryEntry>,
}

/// One record per processed command: when it arrived, the version it was
/// processed against, and how many events it appended.
#[derive(Debug)]
pub struct CommandRecord<C> {
    pub time: u64,
    pub version_before: u64,
    pub events_count: u64,
    pub command: SentCommand<C>,
}

/// The append-only log of one aggregate.
pub struct AggregateLog<A: Aggregate> {
    pub handle: CaHandle,
    pub init: StoredEvent<A::Init>,
    pub events: Vec<StoredEvent<A::Event>>,
    pub records: Vec<CommandRecord<A::Command>>,
    pub version: u64,
}

/// Versions are dense and consistent: the log's version counts the genesis
/// event plus every stored event, and each stored event names the version it
/// produced and the aggregate it belongs to.
pub open spec fn log_wf<A: Aggregate>(l: AggregateLog<A>) -> bool {
    &&& A::spec_init(l.init) is Ok
    &&& l.version as int == 1 + l.events@.len()
    &&& forall|j: int|
        0 <= j < l.events@.len() ==> (#[trigger] l.events@[j]).version as int == 2 + j
            && l.events@[j].handle.text() == l.handle.text()
}

/// A durable, append-only log per aggregate handle, replayed to reconstruct
/// state, with optimistic concurrency on command processing.
pub struct MemAggregateStore<A: Aggregate> {
    pub logs: Vec<AggregateLog<A>>,
}

impl<A: Aggregate> MemAggregateStore<A> {
    /// One log per handle, each log consistent.
    pub open spec fn wf(self) -> bool {
        &&& forall|i: int, j: int|
            #![trigger self.logs@[i], self.logs@[j]]
            0 <= i < j < self.logs@.len() ==> self.logs@[i].handle.text()
                != self.logs@[j].handle.text()
        &&& forall|i: int| 0 <= i < self.logs@.len() ==> log_wf::<A>(#[trigger] self.logs@[i])
    }

    /// A log exists for the handle.
    pub open spec fn has_handle(self, h: Seq<char>) -> bool {
        exists|i: int| 0 <= i < self.logs@.len() && (#[trigger] self.logs@[i]).handle.text() == h
    }

    /// The log of the handle (meaningful only when one exists).
    pub open spec fn log_at(self, h: Seq<char>) -> AggregateLog<A> {
        self.logs@[choose|i: int|
            0 <= i < self.logs@.len() && (#[trigger] self.logs@[i]).handle.text() == h]
    }

    pub fn new() -> (r: MemAggregateStore<A>)
        ensures
            r.wf(),
            r.logs@.len() == 0,
            forall|h: Seq<char>| !r.has_handle(h),
    {
        MemAggregateStore { logs: Vec::new() }
    }

    /// Index of the handle's log.
    fn find_idx(&self, handle: &CaHandle) -> (r: Option<usize>)
        ensures
            match r {
                Some(i) => i < self.logs@.len() && self.logs@[i as int].handle.text()
                    == handle.text() && self.has_handle(handle.text()),
                None => !self.has_handle(handle.text()),
            },
    {
        let n = self.logs.len();
        let mut i: usize = 0;
        while i < n
            invariant
                i <= n,
                n == self.logs@.len(),
                forall|k: int|
                    0 <= k < i ==> (#[trigger] self.logs@[k]).handle.text() != handle.text(),
            decreases n - i,
        {
            if self.logs[i].handle.eq_handle(handle) {
                return Some(i);
            }
            i += 1;
        }
        None
    }

    /// Creates a new aggregate's log from its genesis event. Fails when the
    /// handle is already taken or the aggregate rejects the genesis event;
    /// the store is then unchanged.
    pub fn add(&mut self, handle: CaHandle, init: StoredEvent<A::Init>) -> (r: Result<
        (),
        StoreError<A::Error>,
    >)
        requires
            old(self).wf(),
        ensures
            final(self).wf(),
            ({
                if old(self).has_handle(handle.text()) {
                    &&& r matches Err(StoreError::DuplicateHandle)
                    &&& final(self).logs@ == old(self).logs@
                } else {
                    match A::spec_init(init) {
                        Err(e) => {
                            &&& r == Result::<(), StoreError<A::Error>>::Err(
                                StoreError::AggregateError(e),
                            )
                            &&& final(self).logs@ == old(self).logs@
                        },
                        Ok(_) => {
                            &&& r is Ok
                            &&& final(self).logs@.len() == old(self).logs@.len() + 1
                            &&& final(self).logs@.last().handle == handle
                            &&& final(self).logs@.last().init == init
                            &&& final(self).logs@.last().version == 1
                            &&& final(self).logs@.last().events@.len() == 0
                            &&& final(self).logs@.last().records@.len() == 0
                            &&& final(self).logs@.subrange(0, old(self).logs@.len() as int)
                                == old(self).logs@
                        },
                    }
                }
            }),
    {
        match self.find_idx(&handle) {
            Some(_) => Err(StoreError::DuplicateHandle),
            None => {
                match A::init(&init) {
                    Err(e) => Err(StoreError::AggregateError(e)),
                    Ok(_) => {
                        let ghost pre = self.logs@;
                        self.logs.push(
                            AggregateLog {
                                handle,
                                init,
                                events: Vec::new(),
                                records: Vec::new(),
                                version: 1,
                            },
                        );
                        proof {
                            assert(self.logs@.subrange(0, pre.len() as int) =~= pre);
                            assert forall|i: int, j: int|
                                #![trigger self.logs@[i], self.logs@[j]]
                                0 <= i < j < self.logs@.len() implies self.logs@[i].handle.text()
                                != self.logs@[j].handle.text() by {
                                if j < pre.len() {
                                    assert(self.logs@[i] == pre[i] && self.logs@[j] == pre[j]);
                                } else {
                                    assert(self.logs@[i] == pre[i]);
                                    assert(!old(self).has_handle(self.logs@[j].handle.text()));
                                }
                            }
                        }
                        Ok(())
                    },
                }
            },
        }
    }

    /// Reconstructs the aggregate by replaying its whole log from the
    /// genesis event, in order. Read-only and repeatable: the result is a
    /// function of the log alone.
    #[verifier::loop_isolation(false)]
    pub fn get(&self, handle: &CaHandle) -> (r: Result<A, StoreError<A::Error>>)
        requires
            self.wf(),
        ensures
            match r {
                Ok(a) => self.has_handle(handle.text()) && a.st() == spec_replay::<A>(
                    self.log_at(handle.text()),
                ),
                Err(e) => (e matches StoreError::UnknownHandle) && !self.has_handle(
                    handle.text(),
                ),
            },
    {
        let i = match self.find_idx(handle) {
            Some(i) => i,
            None => {
                return Err(StoreError::UnknownHandle);
            },
        };
        proof {
            let k = choose|k: int|
                0 <= k < self.logs@.len() && (#[trigger] self.logs@[k]).handle.text()
                    == handle.text();
            assert(k == i as int);
        }
        let l = &self.logs[i];
        let mut a = match A::init(&l.init) {
            Ok(a) => a,
            Err(_) => {
                proof {
                    assert(log_wf::<A>(self.logs@[i as int]));
                    assert(false);
                }
                return Err(StoreError::UnknownHandle);
            },
        };
        let ghost views = event_views::<A>(l.events@);
        proof {
            assert(views.skip(0) =~= views);
            A::law_init_version(l.init);
            assert(log_wf::<A>(self.logs@[i as int]));
        }
        let n = l.events.len();
        let mut j: usize = 0;
        while j < n
            invariant
                j <= n,
                n == l.events@.len(),
                l == &self.logs@[i as int],
                views == event_views::<A>(l.events@),
                A::spec_version(a.st()) == 1 + j,
                replay_events::<A>(a.st(), views.skip(j as int)) == replay_events::<A>(
                    A::spec_init(l.init)->Ok_0,
                    views,
                ),
            decreases n - j,
        {
            let ghost pre_st = a.st();
            proof {
                A::law_apply_version(pre_st, A::ev_view(l.events@[j as int].details));
                assert(l.version as int == 1 + n);
            }
            a.apply(&l.events[j].details);
            proof {
                let rest = views.skip(j as int);
                assert(rest[0] == A::ev_view(l.events@[j as int].details));
                assert(rest.drop_first() =~= views.skip(j as int + 1));
                assert(replay_events::<A>(pre_st, rest) == replay_events::<A>(
                    A::spec_apply(pre_st, rest[0]),
                    rest.drop_first(),
                ));
            }
            j += 1;
        }
        proof {
            assert(views.skip(n as int) =~= Seq::<A::EventView>::empty());
        }
        Ok(a)
    }

    /// Processes a command against the handle's current state under
    /// optimistic concurrency: only a command expecting exactly the log's
    /// current version may append; everyone else observes a conflict and the
    /// log is untouched. On success the produced events are appended with
    /// dense version numbers, a command record is written, and the new
    /// version is returned.
    #[verifier::rlimit(100)]
    #[verifier::loop_isolation(false)]
    pub fn command(&mut self, cmd: SentCommand<A::Command>, time: u64) -> (r: Result<
        u64,
        StoreError<A::Error>,
    >)
        requires
            old(self).wf(),
        ensures
            final(self).wf(),
            ({
                let h = cmd.handle.text();
                if !old(self).has_handle(h) {
                    &&& r matches Err(StoreError::UnknownHandle)
                    &&& final(self).logs@ == old(self).logs@
                } else {
                    let l = old(self).log_at(h);
                    let st = spec_replay::<A>(l);
                    if cmd.version_expected != l.version {
                        &&& r matches Err(StoreError::ConcurrencyConflict {
                            expected,
                            actual,
                        }) && expected == cmd.version_expected && actual == l.version
                        &&& final(self).logs@ == old(self).logs@
                    } else {
                        match A::spec_process(st, cmd) {
                            Err(e) => {
                                &&& r matches Err(StoreError::AggregateError(e2)) && e2 == e
                                &&& final(self).logs@ == old(self).logs@
                            },
                            Ok(evs) => {
                                if evs.len() > u64::MAX - l.version {
                                    &&& r matches Err(StoreError::VersionExhausted)
                                    &&& final(self).logs@ == old(self).logs@
                                } else {
                                    let nl = final(self).log_at(h);
                                    &&& r matches Ok(v) && v as int == l.version + evs.len()
                                    &&& final(self).has_handle(h)
                                    &&& nl.handle == l.handle
                                    &&& nl.init == l.init
                                    &&& nl.version as int == l.version + evs.len()
                                    &&& event_views::<A>(nl.events@) == event_views::<A>(
                                        l.events@,
                                    ) + evs
                                    &&& spec_replay::<A>(nl) == replay_events::<A>(st, evs)
                                    &&& nl.records@ =~= l.records@.push(
                                        CommandRecord {
                                            time,
                                            version_before: l.version,
                                            events_count: evs.len() as u64,
                                            command: cmd,
                                        },
                                    )
                                    &&& final(self).logs@.len() == old(self).logs@.len()
                                    &&& forall|k: int|
                                        0 <= k < old(self).logs@.len() && (
                                        #[trigger] old(self).logs@[k]).handle.text() != h
                                            ==> final(self).logs@[k] == old(self).logs@[k]
                                }
                            },
                        }
                    }
                }
            }),
    {
        let i = match self.find_idx(&cmd.handle) {
            Some(i) => i,
            None => {
                return Err(StoreError::UnknownHandle);
            },
        };
        proof {
            let k = choose|k: int|
                0 <= k < self.logs@.len() && (#[trigger] self.logs@[k]).handle.text()
                    == cmd.handle.text();
            assert(k == i as int);
        }
        let state = match self.get(&cmd.handle) {
            Ok(a) => a,
            Err(_) => {
                proof {
                    assert(false);
                }
                return Err(StoreError::UnknownHandle);
            },
        };
        let cur = self.logs[i].version;
        if cmd.version_expected != cur {
            return Err(StoreError::ConcurrencyConflict { expected: cmd.version_expected, actual: cur });
        }
        let mut evs = match state.process_command(&cmd) {
            Ok(evs) => evs,
            Err(e) => {
                return Err(StoreError::AggregateError(e));
            },
        };
        if evs.len() as u64 > u64::MAX - cur {
            return Err(StoreError::VersionExhausted);
        }
        let ghost old_logs = self.logs@;
        let ghost l = self.logs@[i as int];
        let ghost evs_views = A::spec_process(spec_replay::<A>(l), cmd)->Ok_0;
        let ghost n_new = evs@.len();
        let mut log = self.logs.remove(i);
        let total = evs.len();
        let mut j: usize = 0;
        while evs.len() > 0
            invariant
                j + evs.len() == total,
                j <= total,
                n_new == total,
                log.handle == l.handle,
                log.init == l.init,
                log.records@ == l.records@,
                log.version == l.version,
                l.version as int == 1 + l.events@.len(),
                l.version as int + total <= u64::MAX,
                log.events@.len() == l.events@.len() + j,
                event_views::<A>(log.events@) =~= event_views::<A>(l.events@) + evs_views.take(
                    j as int,
                ),
                evs@.map_values(|ev: A::Event| A::ev_view(ev)) =~= evs_views.skip(j as int),
                forall|t: int|
                    0 <= t < log.events@.len() ==> (#[trigger] log.events@[t]).version as int == 2
                        + t && log.events@[t].handle.text() == log.handle.text(),
            decreases evs.len(),
        {
            let ghost pre_evs = evs@;
            let e = evs.remove(0);
            let ghost pre_events = log.events@;
            let ver = log.version + 1 + (j as u64);
            log.events.push(StoredEvent { handle: cmd.handle.dup(), version: ver, details: e });
            proof {
                assert(event_views::<A>(log.events@) =~= event_views::<A>(pre_events).push(
                    A::ev_view(e),
                ));
                assert(pre_evs.map_values(|ev: A::Event| A::ev_view(ev))[0] == A::ev_view(
                    pre_evs[0],
                ));
                assert(evs_views.skip(j as int)[0] == A::ev_view(e));
                assert(evs_views.take(j as int + 1) =~= evs_views.take(j as int).push(
                    A::ev_view(e),
                ));
                assert(evs@ =~= pre_evs.drop_first());
                assert forall|t: int|
                    #![trigger evs_views.skip(j as int + 1)[t]]
                    0 <= t < evs@.len() implies evs@.map_values(|ev: A::Event| A::ev_view(ev))[t]
                    == evs_views.skip(j as int + 1)[t] by {
                    assert(evs@[t] == pre_evs[t + 1]);
                    assert(pre_evs.map_values(|ev: A::Event| A::ev_view(ev))[t + 1] == A::ev_view(
                        pre_evs[t + 1],
                    ));
                    assert(evs_views.skip(j as int)[t + 1] == evs_views.skip(j as int + 1)[t]);
                }
                assert(evs@.map_values(|ev: A::Event| A::ev_view(ev)) =~= evs_views.skip(
                    j as int + 1,
                ));
            }
            j += 1;
        }
        log.records.push(
            CommandRecord {
                time,
                version_before: log.version,
                events_count: total as u64,
                command: cmd,
            },
        );
        let new_version = log.version + (total as u64);
        log.version = new_version;
        proof {
            assert(evs_views.take(n_new as int) =~= evs_views);
        }
        self.logs.insert(i, log);
        proof {
            assert(self.logs@ =~= old_logs.update(i as int, self.logs@[i as int]));
            let h = cmd.handle.text();
            assert(self.logs@[i as int].handle.text() == h);
            assert(final(self).has_handle(h)) by {
                assert(self.logs@[i as int].handle.text() == h);
            }
            let k2 = choose|k: int|
                0 <= k < self.logs@.len() && (#[trigger] self.logs@[k]).handle.text() == h;
            assert(k2 == i as int);
            let nl = self.logs@[i as int];
            lemma_replay_split::<A>(A::spec_init(nl.init)->Ok_0, event_views::<A>(l.events@), evs_views);
            assert forall|a: int, b: int|
                #![trigger self.logs@[a], self.logs@[b]]
                0 <= a < b < self.logs@.len() implies self.logs@[a].handle.text()
                != self.logs@[b].handle.text() by {
                if a != i as int && b != i as int {
                    assert(self.logs@[a] == old_logs[a] && self.logs@[b] == old_logs[b]);
                } else if a == i as int {
                    assert(self.logs@[b] == old_logs[b]);
                    assert(old_logs[a].handle.text() != old_logs[b].handle.text());
                } else {
                    assert(self.logs@[a] == old_logs[a]);
                    assert(old_logs[a].handle.text() != old_logs[b].handle.text());
                }
            }
        }
        Ok(new_version)
    }

    /// The criteria-filtered history of the handle's commands, oldest first,
    /// without mutating the log.
    #[verifier::loop_isolation(false)]
    pub fn history(&self, handle: &CaHandle, criteria: CommandHistoryCriteria) -> (r: Result<
        CommandHistory,
        StoreError<A::Error>,
    >)
        requires
            self.wf(),
        ensures
            match r {
                Ok(hi) => self.has_handle(handle.text()) && hi.entries@ == spec_history(
                    self.log_at(handle.text()).records@,
                    criteria.after,
                    criteria.before,
                    0,
                    match criteria.max {
                        Some(m) => m as nat,
                        None => self.log_at(handle.text()).records@.len(),
                    },
                ),
                Err(e) => (e matches StoreError::UnknownHandle) && !self.has_handle(
                    handle.text(),
                ),
            },
    {
        let i = match self.find_idx(handle) {
            Some(i) => i,
            None => {
                return Err(StoreError::UnknownHandle);
            },
        };
        proof {
            let k = choose|k: int|
                0 <= k < self.logs@.len() && (#[trigger] self.logs@[k]).handle.text()
                    == handle.text();
            assert(k == i as int);
        }
        let recs = &self.logs[i].records;
        let n = recs.len();
        let mut left: usize = match criteria.max {
            Some(m) => m,
            None => n,
        };
        let ghost left0: nat = left as nat;
        let mut out: Vec<CommandHistoryEntry> = Vec::new();
        let mut j: usize = 0;
        while j < n && left > 0
            invariant
                j <= n,
                n == recs@.len(),
                left <= left0,
                recs == &self.logs@[i as int].records,
                spec_history(recs@, criteria.after, criteria.before, 0, left0) == out@
                    + spec_history(recs@, criteria.after, criteria.before, j as int, left as nat),
            decreases n - j,
        {
            let rec = &recs[j];
            let ok1 = match criteria.after {
                Some(a) => rec.time >= a,
                None => true,
            };
            let ok2 = match criteria.before {
                Some(b) => rec.time <= b,
                None => true,
            };
            if ok1 && ok2 {
                out.push(
                    CommandHistoryEntry {
                        sequence: j as u64,
                        time: rec.time,
                        version_before: rec.version_before,
                    },
                );
                left -= 1;
            }
            j += 1;
        }
        proof {
            assert(spec_history(recs@, criteria.after, criteria.before, j as int, left as nat)
                =~= Seq::<CommandHistoryEntry>::empty());
            assert(out@ =~= out@ + Seq::<CommandHistoryEntry>::empty());
        }
        Ok(CommandHistory { entries: out })
    }

    /// Looks one historical command up by its per-handle key: its position
    /// in the handle's command sequence.
    pub fn command_details(&self, handle: &CaHandle, key: u64) -> (r: Result<
        &CommandRecord<A::Command>,
        StoreError<A::Error>,
    >)
        requires
            self.wf(),
        ensures
            match r {
                Ok(rec) => self.has_handle(handle.text()) && key < self.log_at(
                    handle.text(),
                ).records@.len() && *rec == self.log_at(handle.text()).records@[key as int],
                Err(e) => {
                    ||| (e matches StoreError::UnknownHandle) && !self.has_handle(handle.text())
                    ||| (e matches StoreError::UnknownCommand) && self.has_handle(handle.text())
                        && key >= self.log_at(handle.text()).records@.len()
                },
            },
    {
        let i = match self.find_idx(handle) {
            Some(i) => i,
            None => {
                return Err(StoreError::UnknownHandle);
            },
        };
        proof {
            let k = choose|k: int|
                0 <= k < self.logs@.len() && (#[trigger] self.logs@[k]).handle.text()
                    == handle.text();
            assert(k == i as int);
        }
        let recs = &self.logs[i].records;
        if key >= recs.len() as u64 {
            return Err(StoreError::UnknownCommand);
        }
        Ok(&recs[key as usize])
    }

}

} // verus!
