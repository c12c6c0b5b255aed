//! The Trust Anchor: the root aggregate, holding the universal resource set
//! from which every delegation chain derives its authority. Its commands
//! delegate a resource set to a child CA, validated against the held set.

use vstd::prelude::*;

use crate::eventsourcing::{Aggregate, CaHandle, CommandDetails, SentCommand, StoredEvent};
use crate::grammar::{family_max, Family};
use crate::resourceset::{universal_sig, view_encompasses, ResourceSet, RsView};

verus! {

/// The well-known handle of the Trust Anchor.
pub fn ta_handle() -> (h: CaHandle)
    ensures
        h.text() == "ta"@,
{
    CaHandle::new("ta")
}

pub type TrustAnchorInit = StoredEvent<TrustAnchorInitDetails>;

/// Genesis details of a Trust Anchor: the resources it starts with.
pub struct TrustAnchorInitDetails {
    resources: ResourceSet,
}

impl TrustAnchorInitDetails {
    #[verifier::type_invariant]
    spec fn ti(self) -> bool {
        self.resources.wf()
    }

    /// The model of the held resources.
    pub closed spec fn res_sig(self) -> RsView {
        self.resources.sig()
    }

    /// A genesis event holding the given resources. The set must be in
    /// normal form, as every set built by this crate is.
    pub fn with_resources(handle: &CaHandle, resources: ResourceSet) -> (r: TrustAnchorInit)
        requires
            resources.wf(),
        ensures
            r.handle.text() == handle.text(),
            r.version == 0,
            r.details.res_sig() == resources.sig(),
    {
        StoredEvent::new(handle.dup(), 0, TrustAnchorInitDetails { resources })
    }

    /// The genesis event of a Trust Anchor holding the universal resource
    /// set: all ASNs, all of IPv4 and all of IPv6.
    pub fn with_all_resources(handle: &CaHandle) -> (r: TrustAnchorInit)
        ensures
            r.handle.text() == handle.text(),
            r.version == 0,
            r.details.res_sig() == universal_sig(),
            forall|x: int|
                0 <= x <= family_max(Family::Asn) ==> crate::ranges::covers(r.details.res_sig().0, x),
            forall|x: int|
                0 <= x <= family_max(Family::V4) ==> crate::ranges::covers(r.details.res_sig().1, x),
            forall|x: int|
                0 <= x <= family_max(Family::V6) ==> crate::ranges::covers(r.details.res_sig().2, x),
    {
        let resources = ResourceSet::all_resources();
        let ghost res0 = resources;
        let r = StoredEvent::new(handle.dup(), 0, TrustAnchorInitDetails { resources });
        proof {
            assert(r.details.res_sig() == res0.sig());
            assert forall|x: int|
                0 <= x <= family_max(Family::Asn) implies crate::ranges::covers(
                r.details.res_sig().0,
                x,
            ) by {
                assert(res0.has_asn(x));
            }
            assert forall|x: int|
                0 <= x <= family_max(Family::V4) implies crate::ranges::covers(
                r.details.res_sig().1,
                x,
            ) by {
                assert(res0.has_v4(x));
            }
            assert forall|x: int|
                0 <= x <= family_max(Family::V6) implies crate::ranges::covers(
                r.details.res_sig().2,
                x,
            ) by {
                assert(res0.has_v6(x));
            }
        }
        r
    }
}

pub type TrustAnchorEvent = StoredEvent<TrustAnchorEventDetails>;

/// A delegation that happened: the child and the resource set certified for
/// it.
pub struct TrustAnchorEventDetails {
    child: CaHandle,
    resources: ResourceSet,
}

impl TrustAnchorEventDetails {
    #[verifier::type_invariant]
    spec fn ti(self) -> bool {
        self.resources.wf()
    }

    /// The model of the event: the child's name and the delegated set.
    pub closed spec fn sig(self) -> (Seq<char>, RsView) {
        (self.child.text(), self.resources.sig())
    }

    /// The child the delegation names.
    pub fn child(&self) -> (c: &CaHandle)
        ensures
            c.text() == self.sig().0,
    {
        &self.child
    }

    /// The delegated resources.
    pub fn resources(&self) -> (r: &ResourceSet)
        ensures
            r.sig() == self.sig().1,
            r.wf(),
    {
        proof {
            use_type_invariant(self);
        }
        &self.resources
    }
}

pub type TrustAnchorCommand = SentCommand<TrustAnchorCommandDetails>;

/// A request to delegate a resource set to a child CA.
pub struct TrustAnchorCommandDetails {
    child: CaHandle,
    resources: ResourceSet,
}

impl TrustAnchorCommandDetails {
    #[verifier::type_invariant]
    spec fn ti(self) -> bool {
        self.resources.wf()
    }

    /// The model of the request: the child's name and the asked-for set.
    pub closed spec fn sig(self) -> (Seq<char>, RsView) {
        (self.child.text(), self.resources.sig())
    }

    /// A delegation request. The resource set must be in normal form, as
    /// every set built by this crate is.
    pub fn new(child: CaHandle, resources: ResourceSet) -> (r: TrustAnchorCommandDetails)
        requires
            resources.wf(),
        ensures
            r.sig() == (child.text(), resources.sig()),
    {
        TrustAnchorCommandDetails { child, resources }
    }
}

impl CommandDetails for TrustAnchorCommandDetails {
    type Event = TrustAnchorEvent;
}

/// The Trust Anchor's domain error: the requested delegation asks for
/// resources the Trust Anchor does not hold.
#[derive(Clone, Copy, PartialEq, Eq, Structural, Debug)]
pub struct Error;

impl Error {
    /// The error's text.
    pub fn message(&self) -> (s: String)
        ensures
            s@ == "Trust Anchor Issue"@,
    {
        String::from_str("Trust Anchor Issue")
    }
}

/// The root of trust: its identity, its current version and the resource set
/// it holds and may delegate from.
pub struct TrustAnchor {
    id: CaHandle,
    version: u64,
    resources: ResourceSet,
}

impl TrustAnchor {
    #[verifier::type_invariant]
    spec fn ti(self) -> bool {
        self.resources.wf()
    }

    /// The held resources.
    pub fn resources(&self) -> (r: &ResourceSet)
        ensures
            r.sig() == self.st().2,
            r.wf(),
    {
        proof {
            use_type_invariant(self);
        }
        &self.resources
    }

    /// The aggregate's identity.
    pub fn id(&self) -> (h: &CaHandle)
        ensures
            h.text() == self.st().0,
    {
        &self.id
    }
}

/// Model of a Trust Anchor state: its name, version and held resources.
pub type TaView = (Seq<char>, int, RsView);

impl Aggregate for TrustAnchor {
    type Init = TrustAnchorInitDetails;

    type Event = TrustAnchorEventDetails;

    type Command = TrustAnchorCommandDetails;

    type Error = Error;

    type StateView = TaView;

    type EventView = (Seq<char>, RsView);

    closed spec fn st(self) -> TaView {
        (self.id.text(), self.version as int, self.resources.sig())
    }

    open spec fn ev_view(e: TrustAnchorEventDetails) -> (Seq<char>, RsView) {
        e.sig()
    }

    /// Initialization always succeeds and yields version 1 with the genesis
    /// event's resources.
    open spec fn spec_init(e: TrustAnchorInit) -> Result<TaView, Error> {
        Ok((e.handle.text(), 1int, e.details.res_sig()))
    }

    /// A delegation event advances the version; the Trust Anchor's own held
    /// set never shrinks (it is unchanged).
    open spec fn spec_apply(st: TaView, e: (Seq<char>, RsView)) -> TaView {
        (st.0, st.1 + 1, st.2)
    }

    open spec fn spec_version(st: TaView) -> int {
        st.1
    }

    /// A delegation is granted exactly when the Trust Anchor's held set
    /// encompasses the requested set; it then yields the one matching
    /// delegation event.
    open spec fn spec_process(st: TaView, c: TrustAnchorCommand) -> Result<
        Seq<(Seq<char>, RsView)>,
        Error,
    > {
        if view_encompasses(st.2, c.details.sig().1) {
            Ok(seq![c.details.sig()])
        } else {
            Err(Error)
        }
    }

    fn init(e: &TrustAnchorInit) -> (r: Result<TrustAnchor, Error>) {
        proof {
            use_type_invariant(&e.details);
        }
        Ok(
            TrustAnchor {
                id: e.handle.dup(),
                version: 1,
                resources: e.details.resources.duplicate(),
            },
        )
    }

    fn version(&self) -> (v: u64) {
        self.version
    }

    fn apply(&mut self, e: &TrustAnchorEventDetails) {
        proof {
            use_type_invariant(&*self);
        }
        self.version = self.version + 1;
    }

    fn process_command(&self, c: &TrustAnchorCommand) -> (r: Result<
        Vec<TrustAnchorEventDetails>,
        Error,
    >) {
        proof {
            use_type_invariant(&*self);
            use_type_invariant(&c.details);
        }
        let granted = self.resources.encompasses(&c.details.resources);
        proof {
            crate::resourceset::lemma_encompasses_views(self.resources, c.details.resources);
            assert(granted == view_encompasses(self.st().2, c.details.sig().1));
        }
        if granted {
            let details = TrustAnchorEventDetails {
                child: c.details.child.dup(),
                resources: c.details.resources.duplicate(),
            };
            let ghost det0 = details;
            let mut v: Vec<TrustAnchorEventDetails> = Vec::new();
            v.push(details);
            proof {
                let expected = Self::spec_process(self.st(), *c)->Ok_0;
                assert(v@ =~= seq![det0]);
                assert(v@.map_values(|ev: TrustAnchorEventDetails| Self::ev_view(ev))[0]
                    == Self::ev_view(det0));
                assert(det0.sig() == c.details.sig());
                assert(expected[0] == c.details.sig());
                assert(v@.map_values(|ev: TrustAnchorEventDetails| Self::ev_view(ev)) =~= expected);
            }
            Ok(v)
        } else {
            Err(Error)
        }
    }

    proof fn law_init_version(e: TrustAnchorInit) {
    }

    proof fn law_apply_version(st: TaView, e: (Seq<char>, RsView)) {
    }
}

/// A freshly initialized Trust Anchor holding the universal resource set
/// encompasses every legally constructible child resource set: anything in
/// normal form within the family bounds, in particular anything parsed.
pub proof fn lemma_genesis_encompasses_all(st: TaView, child: ResourceSet)
    requires
        child.wf(),
        forall|x: int| 0 <= x <= family_max(Family::Asn) ==> crate::ranges::covers(st.2.0, x),
        forall|x: int| 0 <= x <= family_max(Family::V4) ==> crate::ranges::covers(st.2.1, x),
        forall|x: int| 0 <= x <= family_max(Family::V6) ==> crate::ranges::covers(st.2.2, x),
    ensures
        view_encompasses(st.2, child.sig()),
{
    assert forall|x: int| crate::ranges::covers(child.sig().0, x) implies crate::ranges::covers(
        st.2.0,
        x,
    ) by {
        crate::resourceset::lemma_member_in_bounds(child.asns, family_max(Family::Asn), x);
    }
    assert forall|x: int| crate::ranges::covers(child.sig().1, x) implies crate::ranges::covers(
        st.2.1,
        x,
    ) by {
        crate::resourceset::lemma_member_in_bounds(child.v4, family_max(Family::V4), x);
    }
    assert forall|x: int| crate::ranges::covers(child.sig().2, x) implies crate::ranges::covers(
        st.2.2,
        x,
    ) by {
        crate::resourceset::lemma_member_in_bounds(child.v6, family_max(Family::V6), x);
    }
}

} // verus!
